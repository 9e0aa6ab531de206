//! Market profiles of sessions: how many minutes traded at each price.

use crate::avwap;
use crate::avwap::anchors;
use crate::clock;
use crate::clock::{floor_to, MINUTE_US};
use crate::history;
use crate::history::{plan_sync, Stamped, SyncPlan};
use crate::order;
use crate::order::{lower_key, upper_key, Key, KEY_INFINITY};
use crate::text::same_text;
use vstd::prelude::*;

verus! {

/// The prices of a minute.
#[derive(Clone, Copy, Debug, PartialEq, Eq)]
pub struct TpoMinute {
    pub ts_bucket: i64,
    pub open: Option<Key>,
    pub high: Option<Key>,
    pub low: Option<Key>,
    pub close: Option<Key>,
    pub last: Option<Key>,
}

impl Stamped for TpoMinute {
    open spec fn at(&self) -> i64 {
        self.ts_bucket
    }

    fn ts(&self) -> (out: i64) {
        self.ts_bucket
    }
}

/// The range that a minute traded over.
#[derive(Clone, Copy, Debug, PartialEq, Eq)]
pub struct RangeBar {
    pub ts_bucket: i64,
    pub high: Key,
    pub low: Key,
}

/// The first of four prices that is known.
pub open spec fn first_known(
    a: Option<Key>,
    b: Option<Key>,
    c: Option<Key>,
    d: Option<Key>,
) -> Option<Key> {
    match (a, b, c, d) {
        (Some(k), _, _, _) => Some(k),
        (None, Some(k), _, _) => Some(k),
        (None, None, Some(k), _) => Some(k),
        (None, None, None, d) => d,
    }
}

fn first_of(a: Option<Key>, b: Option<Key>, c: Option<Key>, d: Option<Key>) -> (out: Option<Key>)
    ensures
        out == first_known(a, b, c, d),
{
    match (a, b, c, d) {
        (Some(k), _, _, _) => Some(k),
        (None, Some(k), _, _) => Some(k),
        (None, None, Some(k), _) => Some(k),
        (None, None, None, d) => d,
    }
}

/// The range of a minute: where it has no highest or lowest price, the close stands in,
/// then the last price, then the open.
pub open spec fn bar_of(row: TpoMinute) -> Option<RangeBar> {
    match (
        first_known(row.high, row.close, row.last, row.open),
        first_known(row.low, row.close, row.last, row.open),
    ) {
        (Some(high), Some(low)) => Some(RangeBar { ts_bucket: row.ts_bucket, high, low }),
        _ => None,
    }
}

/// The range of a minute.
pub fn minute_range_bar(row: &TpoMinute) -> (out: Option<RangeBar>)
    ensures
        out == bar_of(*row),
{
    match (
        first_of(row.high, row.close, row.last, row.open),
        first_of(row.low, row.close, row.last, row.open),
    ) {
        (Some(high), Some(low)) => Some(RangeBar { ts_bucket: row.ts_bucket, high, low }),
        _ => None,
    }
}

/// Keys in order.
pub open spec fn is_sorted(keys: Seq<Key>) -> bool {
    forall|i: int, j: int| 0 <= i <= j < keys.len() ==> keys[i] <= keys[j]
}

/// How many keys are below a limit.
pub open spec fn count_below(keys: Seq<Key>, limit: int) -> int
    decreases keys.len(),
{
    if keys.len() == 0 {
        0
    } else {
        count_below(keys.drop_last(), limit) + if keys.last() < limit {
            1int
        } else {
            0
        }
    }
}

proof fn lemma_count_split(keys: Seq<Key>, limit: int, k: int)
    requires
        0 <= k <= keys.len(),
        forall|i: int| 0 <= i < k ==> (#[trigger] keys[i]) < limit,
        forall|i: int| k <= i < keys.len() ==> (#[trigger] keys[i]) >= limit,
    ensures
        count_below(keys, limit) == k,
    decreases keys.len(),
{
    if keys.len() > 0 {
        let rest = keys.drop_last();
        if k == keys.len() {
            assert(keys[keys.len() - 1] < limit);
            lemma_count_split(rest, limit, k - 1);
        } else {
            assert(keys[keys.len() - 1] >= limit);
            lemma_count_split(rest, limit, k);
        }
    }
}

proof fn lemma_count_bounds(keys: Seq<Key>, limit: int)
    ensures
        0 <= count_below(keys, limit) <= keys.len(),
    decreases keys.len(),
{
    if keys.len() > 0 {
        lemma_count_bounds(keys.drop_last(), limit);
    }
}

proof fn lemma_count_insert(keys: Seq<Key>, at: int, key: Key, limit: int)
    requires
        0 <= at <= keys.len(),
    ensures
        count_below(keys.insert(at, key), limit) == count_below(keys, limit) + if key < limit {
            1int
        } else {
            0
        },
    decreases keys.len(),
{
    let all = keys.insert(at, key);
    if at == keys.len() {
        assert(all.drop_last() =~= keys);
        assert(all.last() == key);
    } else {
        assert(all.last() == keys.last());
        assert(all.drop_last() =~= keys.drop_last().insert(at, key));
        lemma_count_insert(keys.drop_last(), at, key, limit);
    }
}

/// How many of the keys in order are below a limit.
pub fn lower_bound_keys(keys: &[Key], limit: Key) -> (out: usize)
    requires
        is_sorted(keys@),
    ensures
        out == count_below(keys@, limit as int),
        out <= keys@.len(),
{
    let mut lo: usize = 0;
    let mut hi: usize = keys.len();
    while lo < hi
        invariant
            lo <= hi <= keys@.len(),
            is_sorted(keys@),
            forall|i: int| 0 <= i < lo ==> (#[trigger] keys@[i]) < limit,
            forall|i: int| hi <= i < keys@.len() ==> (#[trigger] keys@[i]) >= limit,
        decreases hi - lo,
    {
        let mid: usize = lo + (hi - lo) / 2;
        if keys[mid] < limit {
            assert(forall|i: int| 0 <= i <= mid ==> (#[trigger] keys@[i]) <= keys@[mid as int]);
            lo = mid + 1;
        } else {
            assert(forall|i: int|
                mid <= i < keys@.len() ==> (#[trigger] keys@[i]) >= keys@[mid as int]);
            hi = mid;
        }
    }
    proof {
        lemma_count_split(keys@, limit as int, lo as int);
    }
    lo
}

/// Puts a key where it belongs among keys in order, after those that are the same.
pub fn insert_sorted(keys: &mut Vec<Key>, key: Key)
    requires
        is_sorted(old(keys)@),
    ensures
        is_sorted(final(keys)@),
        final(keys)@.len() == old(keys)@.len() + 1,
        final(keys)@ == old(keys)@.insert(count_below(old(keys)@, key + 1), key),
        forall|limit: int|
            count_below(final(keys)@, limit) == #[trigger] count_below(old(keys)@, limit) + if key
                < limit {
                1int
            } else {
                0
            },
{
    let mut lo: usize = 0;
    let mut hi: usize = keys.len();
    while lo < hi
        invariant
            lo <= hi <= keys@.len(),
            keys@ == old(keys)@,
            is_sorted(keys@),
            forall|i: int| 0 <= i < lo ==> (#[trigger] keys@[i]) <= key,
            forall|i: int| hi <= i < keys@.len() ==> (#[trigger] keys@[i]) > key,
        decreases hi - lo,
    {
        let mid: usize = lo + (hi - lo) / 2;
        if keys[mid] <= key {
            assert(forall|i: int| 0 <= i <= mid ==> (#[trigger] keys@[i]) <= keys@[mid as int]);
            lo = mid + 1;
        } else {
            assert(forall|i: int|
                mid <= i < keys@.len() ==> (#[trigger] keys@[i]) >= keys@[mid as int]);
            hi = mid;
        }
    }
    let ghost before = keys@;
    proof {
        lemma_count_split(before, key + 1, lo as int);
    }
    keys.insert(lo, key);
    proof {
        assert forall|limit: int| count_below(keys@, limit) == #[trigger] count_below(
            before,
            limit,
        ) + if key < limit {
            1int
        } else {
            0
        } by {
            lemma_count_insert(before, lo as int, key, limit);
        }
        assert forall|i: int, j: int| 0 <= i <= j < keys@.len() implies keys@[i] <= keys@[j] by {
            let x = if i < lo {
                before[i]
            } else if i == lo {
                key
            } else {
                before[i - 1]
            };
            let y = if j < lo {
                before[j]
            } else if j == lo {
                key
            } else {
                before[j - 1]
            };
            assert(keys@[i] == x && keys@[j] == y);
        }
    }
}

/// The score of a row of a profile: the minutes that reach down to it or below, less
/// those that end below it.
pub open spec fn score_at(lows: Seq<Key>, highs: Seq<Key>, thresholds: Seq<Key>, row: int) -> int {
    let reach = if row + 1 == thresholds.len() {
        lows.len() as int
    } else {
        count_below(lows, thresholds[row + 1] as int)
    };
    let below = count_below(highs, thresholds[row] as int);
    if reach > below {
        reach - below
    } else {
        0
    }
}

/// The scores of the rows of a profile, given for each row the lowest price that falls in
/// it. The lows and the highs of the minutes stand in order.
pub fn bin_scores(lows: &[Key], highs: &[Key], thresholds: &[Key]) -> (out: Vec<i64>)
    requires
        is_sorted(lows@),
        is_sorted(highs@),
        lows@.len() <= i64::MAX,
    ensures
        out@.len() == thresholds@.len(),
        forall|row: int|
            0 <= row < out@.len() ==> #[trigger] out@[row] == score_at(
                lows@,
                highs@,
                thresholds@,
                row,
            ),
{
    let rows: usize = thresholds.len();
    let mut out: Vec<i64> = Vec::new();
    let mut row: usize = 0;
    while row < rows
        invariant
            row <= rows,
            rows == thresholds@.len(),
            is_sorted(lows@),
            is_sorted(highs@),
            lows@.len() <= i64::MAX,
            out@.len() == row,
            forall|r: int|
                0 <= r < row ==> #[trigger] out@[r] == score_at(lows@, highs@, thresholds@, r),
        decreases rows - row,
    {
        let reach: usize = if row + 1 == rows {
            lows.len()
        } else {
            lower_bound_keys(lows, thresholds[row + 1])
        };
        let below: usize = lower_bound_keys(highs, thresholds[row]);
        if reach > below {
            out.push((reach - below) as i64);
        } else {
            out.push(0);
        }
        row += 1;
    }
    out
}

/// The scores of a profile without width: all minutes in the first row.
pub fn flat_scores(minutes: usize, rows_nb: usize) -> (out: Vec<i64>)
    requires
        minutes <= i64::MAX,
    ensures
        out@.len() == if rows_nb == 0 {
            1
        } else {
            rows_nb as int
        },
        out@[0] == minutes,
        forall|row: int| 1 <= row < out@.len() ==> #[trigger] out@[row] == 0,
{
    let mut out: Vec<i64> = Vec::new();
    out.push(minutes as i64);
    let mut row: usize = 1;
    while row < rows_nb
        invariant
            out@.len() == row,
            row >= 1,
            row <= rows_nb || row == 1,
            out@[0] == minutes,
            forall|r: int| 1 <= r < row ==> #[trigger] out@[r] == 0,
        decreases rows_nb - row,
    {
        out.push(0);
        row += 1;
    }
    out
}

/// How many bars cover a row: they reach down to it or below and do not end below it.
pub open spec fn covering(bars: Seq<RangeBar>, thresholds: Seq<Key>, row: int) -> int
    decreases bars.len(),
{
    if bars.len() == 0 {
        0
    } else {
        let bar = bars.last();
        covering(bars.drop_last(), thresholds, row) + if (row + 1 == thresholds.len() || bar.low
            < thresholds[row + 1]) && bar.high >= thresholds[row] {
            1int
        } else {
            0
        }
    }
}

/// The lows of bars.
pub open spec fn lows_of(bars: Seq<RangeBar>) -> Seq<Key> {
    Seq::new(bars.len(), |i: int| bars[i].low)
}

/// The highs of bars.
pub open spec fn highs_of(bars: Seq<RangeBar>) -> Seq<Key> {
    Seq::new(bars.len(), |i: int| bars[i].high)
}

/// Whether keys are those given, in order.
pub open spec fn is_sorted_form(sorted: Seq<Key>, keys: Seq<Key>) -> bool {
    &&& is_sorted(sorted)
    &&& sorted.len() == keys.len()
    &&& forall|limit: int| count_below(sorted, limit) == #[trigger] count_below(keys, limit)
}

/// The score of a row is how many minutes traded through it, if no minute's low is above
/// its high and the rows lie one above the other.
pub proof fn law_scores_count_bars(
    bars: Seq<RangeBar>,
    lows: Seq<Key>,
    highs: Seq<Key>,
    thresholds: Seq<Key>,
    row: int,
)
    requires
        is_sorted_form(lows, lows_of(bars)),
        is_sorted_form(highs, highs_of(bars)),
        forall|i: int| 0 <= i < bars.len() ==> (#[trigger] bars[i]).low <= bars[i].high,
        is_sorted(thresholds),
        0 <= row < thresholds.len(),
    ensures
        score_at(lows, highs, thresholds, row) == covering(bars, thresholds, row),
{
    lemma_covering(bars, thresholds, row);
    lemma_covering_bounds(bars, thresholds, row);
    assert(count_below(highs, thresholds[row] as int) == count_below(
        highs_of(bars),
        thresholds[row] as int,
    ));
    if row + 1 < thresholds.len() {
        assert(count_below(lows, thresholds[row + 1] as int) == count_below(
            lows_of(bars),
            thresholds[row + 1] as int,
        ));
    }
}

proof fn lemma_covering_bounds(bars: Seq<RangeBar>, thresholds: Seq<Key>, row: int)
    ensures
        covering(bars, thresholds, row) >= 0,
    decreases bars.len(),
{
    if bars.len() > 0 {
        lemma_covering_bounds(bars.drop_last(), thresholds, row);
    }
}

proof fn lemma_covering(bars: Seq<RangeBar>, thresholds: Seq<Key>, row: int)
    requires
        forall|i: int| 0 <= i < bars.len() ==> (#[trigger] bars[i]).low <= bars[i].high,
        is_sorted(thresholds),
        0 <= row < thresholds.len(),
    ensures
        covering(bars, thresholds, row) == (if row + 1 == thresholds.len() {
            bars.len() as int
        } else {
            count_below(lows_of(bars), thresholds[row + 1] as int)
        }) - count_below(highs_of(bars), thresholds[row] as int),
    decreases bars.len(),
{
    if bars.len() > 0 {
        let rest = bars.drop_last();
        assert forall|i: int| 0 <= i < rest.len() implies (#[trigger] rest[i]).low
            <= rest[i].high by {
            assert(rest[i] == bars[i]);
        }
        lemma_covering(rest, thresholds, row);
        assert(lows_of(bars).drop_last() =~= lows_of(rest));
        assert(highs_of(bars).drop_last() =~= highs_of(rest));
        assert(bars[bars.len() - 1].low <= bars[bars.len() - 1].high);
        if row + 1 < thresholds.len() {
            assert(thresholds[row] <= thresholds[row + 1]);
        }
    }
}

/// The part of a profile in which most of the trade took place.
#[derive(Clone, Copy, Debug, PartialEq, Eq)]
pub struct ValueArea {
    pub poc_idx: usize,
    pub val_idx: usize,
    pub vah_idx: usize,
}

/// Whether a row has the highest score, and is the lowest row with as high a one.
pub open spec fn is_poc(scores: Seq<i64>, i: int) -> bool {
    &&& 0 <= i < scores.len()
    &&& forall|j: int| 0 <= j < scores.len() ==> (#[trigger] scores[j]) <= scores[i]
    &&& forall|j: int| 0 <= j < i ==> (#[trigger] scores[j]) < scores[i]
}

/// The sum of the scores from `lo` on and before `hi`.
pub open spec fn score_sum(scores: Seq<i64>, lo: int, hi: int) -> int
    decreases hi - lo,
{
    if lo >= hi {
        0
    } else {
        score_sum(scores, lo, hi - 1) + scores[hi - 1]
    }
}

/// The score of a row, or less than any where there is no such row.
pub open spec fn score_or_none(scores: Seq<i64>, i: int) -> int {
    if 0 <= i < scores.len() {
        scores[i] as int
    } else {
        -1
    }
}

/// The rows from `lo` to `hi` widened, row by row, until their scores reach what is
/// needed or there is no row left: to the side with the higher score, upwards where both
/// are the same.
pub open spec fn widened(scores: Seq<i64>, lo: int, hi: int, needed: i64) -> (int, int)
    decreases scores.len() - (hi - lo),
{
    if lo < 0 || hi >= scores.len() || lo > hi {
        (lo, hi)
    } else if score_sum(scores, lo, hi + 1) >= needed || (lo == 0 && hi == scores.len() - 1) {
        (lo, hi)
    } else if hi + 1 < scores.len() && score_or_none(scores, hi + 1) >= score_or_none(
        scores,
        lo - 1,
    ) {
        widened(scores, lo, hi + 1, needed)
    } else {
        widened(scores, lo - 1, hi, needed)
    }
}

proof fn lemma_sum_front(scores: Seq<i64>, lo: int, hi: int)
    requires
        0 < lo <= hi <= scores.len(),
    ensures
        score_sum(scores, lo - 1, hi) == scores[lo - 1] + score_sum(scores, lo, hi),
    decreases hi - lo,
{
    if lo < hi {
        lemma_sum_front(scores, lo, hi - 1);
    } else {
        assert(score_sum(scores, lo - 1, hi) == score_sum(scores, lo - 1, hi - 1)
            + scores[hi - 1]);
    }
}

proof fn lemma_sum_grows(scores: Seq<i64>, lo: int, hi: int)
    requires
        0 <= lo <= hi <= scores.len(),
        forall|i: int| 0 <= i < scores.len() ==> (#[trigger] scores[i]) >= 0,
    ensures
        0 <= score_sum(scores, lo, hi) <= score_sum(scores, 0, scores.len() as int),
    decreases (scores.len() - hi) + lo,
{
    lemma_sum_not_negative(scores, lo, hi);
    if hi < scores.len() {
        lemma_sum_grows(scores, lo, hi + 1);
        assert(scores[hi] >= 0);
    } else if lo > 0 {
        lemma_sum_grows(scores, lo - 1, hi);
        lemma_sum_front(scores, lo, hi);
        assert(scores[lo - 1] >= 0);
    }
}

proof fn lemma_sum_not_negative(scores: Seq<i64>, lo: int, hi: int)
    requires
        0 <= lo <= hi <= scores.len(),
        forall|i: int| 0 <= i < scores.len() ==> (#[trigger] scores[i]) >= 0,
    ensures
        score_sum(scores, lo, hi) >= 0,
    decreases hi - lo,
{
    if lo < hi {
        lemma_sum_not_negative(scores, lo, hi - 1);
        assert(scores[hi - 1] >= 0);
    }
}

/// The part of a profile in which as much of the trade took place as needed, around the
/// row with the highest score.
pub fn recompute_value_area(scores: &[i64], needed: i64) -> (out: ValueArea)
    requires
        scores@.len() > 0,
        forall|i: int| 0 <= i < scores@.len() ==> (#[trigger] scores@[i]) >= 0,
        score_sum(scores@, 0, scores@.len() as int) <= i64::MAX,
    ensures
        is_poc(scores@, out.poc_idx as int),
        widened(scores@, out.poc_idx as int, out.poc_idx as int, needed) == (
            out.val_idx as int,
            out.vah_idx as int,
        ),
        out.val_idx <= out.poc_idx <= out.vah_idx < scores@.len(),
{
    let n: usize = scores.len();
    let mut poc: usize = 0;
    let mut i: usize = 1;
    while i < n
        invariant
            1 <= i <= n,
            n == scores@.len(),
            poc < i,
            forall|j: int| 0 <= j < i ==> (#[trigger] scores@[j]) <= scores@[poc as int],
            forall|j: int| 0 <= j < poc ==> (#[trigger] scores@[j]) < scores@[poc as int],
        decreases n - i,
    {
        if scores[i] > scores[poc] {
            poc = i;
        }
        i += 1;
    }
    let mut lo: usize = poc;
    let mut hi: usize = poc;
    let mut acc: i64 = scores[poc];
    assert(score_sum(scores@, poc as int, poc + 1) == scores@[poc as int]) by {
        assert(score_sum(scores@, poc as int, poc as int) == 0);
    }
    while acc < needed && (lo > 0 || hi + 1 < n)
        invariant
            lo <= poc <= hi < n,
            n == scores@.len(),
            forall|j: int| 0 <= j < scores@.len() ==> (#[trigger] scores@[j]) >= 0,
            score_sum(scores@, 0, n as int) <= i64::MAX,
            acc == score_sum(scores@, lo as int, hi + 1),
            widened(scores@, poc as int, poc as int, needed) == widened(
                scores@,
                lo as int,
                hi as int,
                needed,
            ),
        decreases n - (hi - lo),
    {
        let lv: i64 = if lo > 0 {
            scores[lo - 1]
        } else {
            -1
        };
        let rv: i64 = if hi + 1 < n {
            scores[hi + 1]
        } else {
            -1
        };
        if hi + 1 < n && rv >= lv {
            proof {
                lemma_sum_grows(scores@, lo as int, hi + 2);
            }
            acc = acc + rv;
            hi += 1;
        } else {
            proof {
                lemma_sum_front(scores@, lo as int, hi + 1);
                lemma_sum_grows(scores@, lo - 1, hi + 1);
            }
            acc = acc + lv;
            lo -= 1;
        }
    }
    ValueArea { poc_idx: poc, val_idx: lo, vah_idx: hi }
}

/// The value area holds as much as needed, or everything.
pub proof fn law_value_area_is_enough(scores: Seq<i64>, lo: int, hi: int, needed: i64)
    requires
        0 <= lo <= hi < scores.len(),
        forall|i: int| 0 <= i < scores.len() ==> (#[trigger] scores[i]) >= 0,
    ensures
        ({
            let (a, b) = widened(scores, lo, hi, needed);
            &&& 0 <= a <= lo && hi <= b < scores.len()
            &&& score_sum(scores, a, b + 1) >= needed || (a == 0 && b == scores.len() - 1)
        }),
    decreases scores.len() - (hi - lo),
{
    if score_sum(scores, lo, hi + 1) >= needed || (lo == 0 && hi == scores.len() - 1) {
    } else if hi + 1 < scores.len() && score_or_none(scores, hi + 1) >= score_or_none(
        scores,
        lo - 1,
    ) {
        law_value_area_is_enough(scores, lo, hi + 1, needed);
    } else {
        law_value_area_is_enough(scores, lo - 1, hi, needed);
    }
}

/// Whether the rows from `a` to `b` are all that were traded through once in a run.
pub open spec fn is_zone(scores: Seq<i64>, a: int, b: int) -> bool {
    &&& 0 <= a <= b < scores.len()
    &&& forall|i: int| a <= i <= b ==> (#[trigger] scores[i]) == 1
    &&& a > 0 ==> scores[a - 1] != 1
    &&& b + 1 < scores.len() ==> scores[b + 1] != 1
}

/// Whether a row is in one of the zones.
pub open spec fn in_zone(zones: Seq<(usize, usize)>, i: int) -> bool {
    exists|z: int| 0 <= z < zones.len() && (#[trigger] zones[z]).0 <= i <= zones[z].1
}

/// The runs of rows that were traded through once, from below.
pub fn single_print_zones(scores: &[i64]) -> (out: Vec<(usize, usize)>)
    ensures
        forall|z: int|
            0 <= z < out@.len() ==> is_zone(
                scores@,
                (#[trigger] out@[z]).0 as int,
                out@[z].1 as int,
            ),
        forall|y: int, z: int|
            0 <= y < z < out@.len() ==> (#[trigger] out@[y]).1 < (#[trigger] out@[z]).0,
        forall|i: int|
            0 <= i < scores@.len() && (#[trigger] scores@[i]) == 1 ==> in_zone(out@, i),
{
    let n: usize = scores.len();
    let mut out: Vec<(usize, usize)> = Vec::new();
    let mut i: usize = 0;
    while i < n
        invariant
            i <= n,
            n == scores@.len(),
            forall|z: int|
                0 <= z < out@.len() ==> is_zone(
                    scores@,
                    (#[trigger] out@[z]).0 as int,
                    out@[z].1 as int,
                ) && out@[z].1 + 1 < i + 1,
            forall|z: int| 0 <= z < out@.len() ==> (#[trigger] out@[z]).1 < i,
            forall|y: int, z: int|
                0 <= y < z < out@.len() ==> (#[trigger] out@[y]).1 < (#[trigger] out@[z]).0,
            forall|j: int| 0 <= j < i && (#[trigger] scores@[j]) == 1 ==> in_zone(out@, j),
            i > 0 && i < n ==> scores@[i as int] != 1 || scores@[i - 1] != 1,
        decreases n - i,
    {
        if scores[i] == 1 {
            let start: usize = i;
            let ghost before = out@;
            while i < n && scores[i] == 1
                invariant
                    start <= i <= n,
                    n == scores@.len(),
                    forall|j: int| start <= j < i ==> (#[trigger] scores@[j]) == 1,
                decreases n - i,
            {
                i += 1;
            }
            assert(i > start);
            out.push((start, i - 1));
            proof {
                assert(is_zone(scores@, start as int, i - 1));
                assert forall|j: int| 0 <= j < i && (#[trigger] scores@[j]) == 1 implies in_zone(
                    out@,
                    j,
                ) by {
                    if j < start {
                        assert(in_zone(before, j));
                        let z = choose|z: int|
                            0 <= z < before.len() && (#[trigger] before[z]).0 <= j <= before[z].1;
                        assert(out@[z].0 <= j <= out@[z].1);
                    } else {
                        assert(out@[out@.len() - 1].0 <= j <= out@[out@.len() - 1].1);
                    }
                }
            }
        } else {
            i += 1;
        }
    }
    out
}

/// Which session's figures stand for all: the last one named like the first preferred.
pub open spec fn primary(codes: Seq<String>, hi: int) -> Option<int>
    decreases hi,
{
    if hi <= 0 {
        None
    } else if codes[hi - 1]@ == codes[0]@ {
        Some(hi - 1)
    } else {
        primary(codes, hi - 1)
    }
}

/// Which session's figures stand for all; none without sessions.
pub fn primary_session(codes: &[String]) -> (out: Option<usize>)
    ensures
        match out {
            None => codes@.len() == 0,
            Some(i) => primary(codes@, codes@.len() as int) == Some(i as int),
        },
{
    let mut i: usize = codes.len();
    while i > 0
        invariant
            i <= codes@.len(),
            primary(codes@, codes@.len() as int) == primary(codes@, i as int),
            codes@.len() > 0 ==> i > 0,
        decreases i,
    {
        if same_text(&codes[i - 1], &codes[0]) {
            return Some(i - 1);
        }
        proof {
            assert(i > 1) by {
                if i == 1 {
                    assert(codes@[0]@ == codes@[0]@);
                }
            }
        }
        i -= 1;
    }
    None
}

/// What a session was made with.
pub struct SessionSettings {
    pub session_minutes: i64,
    /// For how many minutes the opening range is taken.
    pub ib_minutes: i64,
    /// The minutes of the output windows.
    pub outputs: Seq<i64>,
}

/// What is held of a session.
pub struct SessionModel {
    /// When the session started.
    pub start: Option<i64>,
    /// The ranges of its minutes.
    pub bars: Seq<RangeBar>,
    /// For each output window the instants reported.
    pub dev: Seq<Seq<i64>>,
}

/// A session that starts at an instant, with nothing in it.
pub open spec fn fresh_session(start: i64, s: SessionSettings) -> SessionModel {
    SessionModel {
        start: Some(start),
        bars: Seq::empty(),
        dev: Seq::new(s.outputs.len(), |w: int| Seq::<i64>::empty()),
    }
}

/// When the session of an instant started.
pub open spec fn session_start(ts: i64, minutes: i64) -> i64 {
    clock::floor_spec(ts as int, minutes * MINUTE_US) as i64
}

/// Whether a profile can be made of bars: their lowest and highest prices are finite.
pub open spec fn has_profile(bars: Seq<RangeBar>) -> bool {
    &&& bars.len() > 0
    &&& -KEY_INFINITY < order::lowest(lows_of(bars)) < KEY_INFINITY
    &&& -KEY_INFINITY < order::highest(highs_of(bars)) < KEY_INFINITY
}

/// What is held of a session after one more minute. A minute of another session starts
/// that one.
pub open spec fn taken(m: SessionModel, row: TpoMinute, s: SessionSettings) -> SessionModel {
    let start = session_start(row.ts_bucket, s.session_minutes);
    let now = if m.start == Some(start) {
        m
    } else {
        fresh_session(start, s)
    };
    match bar_of(row) {
        None => now,
        Some(bar) => {
            let bars = now.bars.push(bar);
            let anchor = (row.ts_bucket + MINUTE_US) as i64;
            SessionModel {
                start: now.start,
                bars,
                dev: Seq::new(
                    now.dev.len(),
                    |w: int|
                        if has_profile(bars) && avwap::is_anchor(
                            anchor as int,
                            s.outputs[w] as int,
                        ) {
                            now.dev[w].push(anchor)
                        } else {
                            now.dev[w]
                        },
                ),
            }
        },
    }
}

/// Whether a bar belongs to the opening of its session.
pub open spec fn opens_session(bar: RangeBar, start: i64, ib_minutes: i64) -> bool {
    start <= bar.ts_bucket < start + avwap::at_least_one(ib_minutes) * MINUTE_US
}

/// The highest price of the opening of a session.
pub open spec fn opening_high(bars: Seq<RangeBar>, start: i64, ib_minutes: i64) -> Option<Key>
    decreases bars.len(),
{
    if bars.len() == 0 {
        None
    } else {
        let rest = opening_high(bars.drop_last(), start, ib_minutes);
        if !opens_session(bars.last(), start, ib_minutes) {
            rest
        } else {
            match rest {
                None => Some(bars.last().high),
                Some(high) => Some(order::upper(high, bars.last().high)),
            }
        }
    }
}

/// The lowest price of the opening of a session.
pub open spec fn opening_low(bars: Seq<RangeBar>, start: i64, ib_minutes: i64) -> Option<Key>
    decreases bars.len(),
{
    if bars.len() == 0 {
        None
    } else {
        let rest = opening_low(bars.drop_last(), start, ib_minutes);
        if !opens_session(bars.last(), start, ib_minutes) {
            rest
        } else {
            match rest {
                None => Some(bars.last().low),
                Some(low) => Some(order::lower(low, bars.last().low)),
            }
        }
    }
}

/// The running state of one session.
#[derive(Debug)]
pub struct TpoSessionState {
    session_minutes: i64,
    ib_minutes: i64,
    outputs: Vec<i64>,
    start: Option<i64>,
    bars: Vec<RangeBar>,
    lows: Vec<Key>,
    highs: Vec<Key>,
    ib_high: Option<Key>,
    ib_low: Option<Key>,
    dev: Vec<Vec<i64>>,
}

impl View for TpoSessionState {
    type V = SessionModel;

    closed spec fn view(&self) -> SessionModel {
        SessionModel {
            start: self.start,
            bars: self.bars@,
            dev: Seq::new(self.dev@.len(), |w: int| self.dev@[w]@),
        }
    }
}

/// Whether the prices of a bar are comparable.
pub open spec fn has_keys(bar: RangeBar) -> bool {
    order::is_key(bar.high) && order::is_key(bar.low)
}

/// Whether the prices of a minute are comparable.
pub open spec fn minute_has_keys(row: TpoMinute) -> bool {
    &&& row.open matches Some(k) ==> order::is_key(k)
    &&& row.high matches Some(k) ==> order::is_key(k)
    &&& row.low matches Some(k) ==> order::is_key(k)
    &&& row.close matches Some(k) ==> order::is_key(k)
    &&& row.last matches Some(k) ==> order::is_key(k)
}

proof fn lemma_none_below(keys: Seq<Key>, limit: int)
    ensures
        count_below(keys, limit) == 0 ==> forall|i: int|
            0 <= i < keys.len() ==> (#[trigger] keys[i]) >= limit,
        count_below(keys, limit) > 0 ==> exists|i: int|
            0 <= i < keys.len() && (#[trigger] keys[i]) < limit,
        count_below(keys, limit) < keys.len() ==> exists|i: int|
            0 <= i < keys.len() && (#[trigger] keys[i]) >= limit,
        count_below(keys, limit) == keys.len() ==> forall|i: int|
            0 <= i < keys.len() ==> (#[trigger] keys[i]) < limit,
    decreases keys.len(),
{
    if keys.len() > 0 {
        let rest = keys.drop_last();
        lemma_none_below(rest, limit);
        lemma_count_bounds(rest, limit);
        let n = keys.len() as int;
        assert(keys[n - 1] == keys.last());
        assert(forall|i: int| 0 <= i < rest.len() ==> #[trigger] rest[i] == keys[i]);
        if count_below(keys, limit) == 0 {
            assert forall|i: int| 0 <= i < keys.len() implies (#[trigger] keys[i]) >= limit by {
                if i < n - 1 {
                    assert(rest[i] == keys[i]);
                }
            }
        }
        if count_below(keys, limit) == keys.len() {
            assert forall|i: int| 0 <= i < keys.len() implies (#[trigger] keys[i]) < limit by {
                if i < n - 1 {
                    assert(rest[i] == keys[i]);
                }
            }
        }
        if count_below(keys, limit) > 0 && keys.last() >= limit {
            let i = choose|i: int| 0 <= i < rest.len() && (#[trigger] rest[i]) < limit;
            assert(keys[i] < limit);
        }
        if count_below(keys, limit) < keys.len() && keys.last() < limit {
            let i = choose|i: int| 0 <= i < rest.len() && (#[trigger] rest[i]) >= limit;
            assert(keys[i] >= limit);
        }
    }
}

proof fn lemma_lowest_is_first(sorted: Seq<Key>, keys: Seq<Key>)
    requires
        is_sorted_form(sorted, keys),
        keys.len() > 0,
        forall|i: int| 0 <= i < keys.len() ==> order::is_key(#[trigger] keys[i]),
    ensures
        sorted[0] == order::lowest(keys),
{
    let low = sorted[0] as int;
    order::lemma_lowest(keys);
    lemma_count_split(sorted, low, 0);
    assert(count_below(keys, low) == 0);
    lemma_none_below(keys, low);
    lemma_none_below(sorted, low + 1);
    assert(sorted[0] < low + 1);
    lemma_count_bounds(sorted, low + 1);
    assert(count_below(sorted, low + 1) > 0);
    assert(count_below(keys, low + 1) > 0);
    lemma_none_below(keys, low + 1);
    let i = choose|i: int| 0 <= i < keys.len() && (#[trigger] keys[i]) < low + 1;
    assert(order::lowest(keys) <= keys[i]);
    let j = choose|j: int| 0 <= j < keys.len() && keys[j] == order::lowest(keys);
    assert(keys[j] >= low);
}

proof fn lemma_highest_is_last(sorted: Seq<Key>, keys: Seq<Key>)
    requires
        is_sorted_form(sorted, keys),
        keys.len() > 0,
        forall|i: int| 0 <= i < keys.len() ==> order::is_key(#[trigger] keys[i]),
    ensures
        sorted.last() == order::highest(keys),
{
    let n = sorted.len() as int;
    let high = sorted.last() as int;
    order::lemma_highest(keys);
    assert(forall|i: int| 0 <= i < n ==> (#[trigger] sorted[i]) <= sorted[n - 1]);
    lemma_count_split(sorted, high + 1, n);
    assert(count_below(keys, high + 1) == n);
    lemma_none_below(keys, high + 1);
    lemma_none_below(sorted, high);
    lemma_count_bounds(sorted, high);
    assert(sorted[n - 1] >= high);
    assert(count_below(sorted, high) < n);
    assert(count_below(keys, high) < n);
    lemma_none_below(keys, high);
    let i = choose|i: int| 0 <= i < keys.len() && (#[trigger] keys[i]) >= high;
    assert(keys[i] <= order::highest(keys));
    let j = choose|j: int| 0 <= j < keys.len() && keys[j] == order::highest(keys);
    assert(keys[j] < high + 1);
}

/// What one minute changed of a session.
#[derive(Clone, Debug, PartialEq, Eq)]
pub struct TpoStep {
    /// Whether another session started.
    pub reset: bool,
    /// The range of the minute.
    pub bar: Option<RangeBar>,
    /// For each output window whether an instant was reported.
    pub reported: Vec<bool>,
}

impl TpoSessionState {
    /// What the session was made with.
    pub closed spec fn settings(&self) -> SessionSettings {
        SessionSettings {
            session_minutes: self.session_minutes,
            ib_minutes: self.ib_minutes,
            outputs: self.outputs@,
        }
    }

    /// The lows and highs stand in order and are those of the minutes; the opening range
    /// is theirs too.
    pub closed spec fn well_formed(&self) -> bool {
        &&& 0 < self.session_minutes <= clock::WINDOW_LIMIT_MINUTES
        &&& self.ib_minutes <= clock::WINDOW_LIMIT_MINUTES
        &&& self.dev@.len() == self.outputs@.len()
        &&& forall|w: int|
            0 <= w < self.outputs@.len() ==> 0 < (#[trigger] self.outputs@[w])
                <= clock::WINDOW_LIMIT_MINUTES
        &&& is_sorted_form(self.lows@, lows_of(self.bars@))
        &&& is_sorted_form(self.highs@, highs_of(self.bars@))
        &&& self.start matches Some(start) ==> self.ib_high == opening_high(
            self.bars@,
            start,
            self.ib_minutes,
        ) && self.ib_low == opening_low(self.bars@, start, self.ib_minutes)
        &&& self.start is None ==> self.bars@.len() == 0 && self.ib_high is None
            && self.ib_low is None
        &&& forall|i: int| 0 <= i < self.bars@.len() ==> has_keys(#[trigger] self.bars@[i])
    }

    /// A session of some minutes that has not started.
    pub fn new(session_minutes: i64, ib_minutes: i64, outputs: Vec<i64>) -> (out: Self)
        requires
            0 < session_minutes <= clock::WINDOW_LIMIT_MINUTES,
            ib_minutes <= clock::WINDOW_LIMIT_MINUTES,
            forall|w: int|
                0 <= w < outputs@.len() ==> 0 < (#[trigger] outputs@[w]) <= clock::WINDOW_LIMIT_MINUTES,
        ensures
            out.well_formed(),
            out.settings() == (SessionSettings { session_minutes, ib_minutes, outputs: outputs@ }),
            out@.start is None,
            out@.bars == Seq::<RangeBar>::empty(),
            out@.dev =~= Seq::new(outputs@.len(), |w: int| Seq::<i64>::empty()),
    {
        let mut dev: Vec<Vec<i64>> = Vec::new();
        let n: usize = outputs.len();
        let mut w: usize = 0;
        while w < n
            invariant
                w <= n,
                dev@.len() == w,
                forall|i: int| 0 <= i < w ==> (#[trigger] dev@[i])@ == Seq::<i64>::empty(),
            decreases n - w,
        {
            dev.push(Vec::new());
            w += 1;
        }
        let out = TpoSessionState {
            session_minutes,
            ib_minutes,
            outputs,
            start: None,
            bars: Vec::new(),
            lows: Vec::new(),
            highs: Vec::new(),
            ib_high: None,
            ib_low: None,
            dev,
        };
        proof {
            assert(out.lows@ =~= lows_of(out.bars@));
            assert(out.highs@ =~= highs_of(out.bars@));
        }
        out
    }

    /// When the session started.
    pub fn session_start(&self) -> (out: Option<i64>)
        ensures
            out == self@.start,
    {
        self.start
    }

    /// How many minutes the session has.
    pub fn len(&self) -> (out: usize)
        ensures
            out == self@.bars.len(),
    {
        self.bars.len()
    }

    /// The lows of the session's minutes, in order.
    pub fn lows(&self) -> (out: &[Key])
        requires
            self.well_formed(),
        ensures
            is_sorted_form(out@, lows_of(self@.bars)),
    {
        self.lows.as_slice()
    }

    /// The highs of the session's minutes, in order.
    pub fn highs(&self) -> (out: &[Key])
        requires
            self.well_formed(),
        ensures
            is_sorted_form(out@, highs_of(self@.bars)),
    {
        self.highs.as_slice()
    }

    /// The highest and the lowest price of the opening of the session; none before the
    /// session starts.
    pub fn initial_balance(&self) -> (out: (Option<Key>, Option<Key>))
        requires
            self.well_formed(),
        ensures
            self@.start matches Some(start) ==> out.0 == opening_high(
                self@.bars,
                start,
                self.settings().ib_minutes,
            ) && out.1 == opening_low(self@.bars, start, self.settings().ib_minutes),
            self@.start is None ==> out.0 is None && out.1 is None,
    {
        (self.ib_high, self.ib_low)
    }

    /// Starts a session.
    pub fn reset_for_session(&mut self, session_start: i64)
        requires
            old(self).well_formed(),
        ensures
            final(self).well_formed(),
            final(self).settings() == old(self).settings(),
            final(self)@ == fresh_session(session_start, old(self).settings()),
    {
        self.start = Some(session_start);
        self.bars = Vec::new();
        self.lows = Vec::new();
        self.highs = Vec::new();
        self.ib_high = None;
        self.ib_low = None;
        let n: usize = self.outputs.len();
        let mut dev: Vec<Vec<i64>> = Vec::new();
        let mut w: usize = 0;
        while w < n
            invariant
                w <= n,
                dev@.len() == w,
                forall|i: int| 0 <= i < w ==> (#[trigger] dev@[i])@ == Seq::<i64>::empty(),
            decreases n - w,
        {
            dev.push(Vec::new());
            w += 1;
        }
        self.dev = dev;
        proof {
            assert(self.lows@ =~= lows_of(self.bars@));
            assert(self.highs@ =~= highs_of(self.bars@));
            assert(self@.dev =~= fresh_session(session_start, old(self).settings()).dev);
        }
    }

    /// The lowest and the highest price of a profile, where one can be made.
    pub fn profile_range(&self) -> (out: Option<(Key, Key)>)
        requires
            self.well_formed(),
        ensures
            match out {
                None => !has_profile(self@.bars),
                Some((low, high)) => has_profile(self@.bars) && low == order::lowest(
                    lows_of(self@.bars),
                ) && high == order::highest(highs_of(self@.bars)),
            },
    {
        let n: usize = self.lows.len();
        if n == 0 {
            return None;
        }
        let low: Key = self.lows[0];
        let high: Key = self.highs[n - 1];
        proof {
            assert forall|i: int| 0 <= i < self.bars@.len() implies order::is_key(
                #[trigger] lows_of(self.bars@)[i],
            ) by {
                assert(has_keys(self.bars@[i]));
            }
            assert forall|i: int| 0 <= i < self.bars@.len() implies order::is_key(
                #[trigger] highs_of(self.bars@)[i],
            ) by {
                assert(has_keys(self.bars@[i]));
            }
            lemma_lowest_is_first(self.lows@, lows_of(self.bars@));
            lemma_highest_is_last(self.highs@, highs_of(self.bars@));
        }
        if -KEY_INFINITY < low && low < KEY_INFINITY && -KEY_INFINITY < high && high
            < KEY_INFINITY {
            Some((low, high))
        } else {
            None
        }
    }

    /// Takes one minute in.
    pub fn append_history_row(&mut self, row: &TpoMinute) -> (out: TpoStep)
        requires
            old(self).well_formed(),
            minute_has_keys(*row),
            -clock::INSTANT_LIMIT_US <= row.ts_bucket <= clock::INSTANT_LIMIT_US - MINUTE_US,
        ensures
            final(self).well_formed(),
            final(self).settings() == old(self).settings(),
            final(self)@ == taken(old(self)@, *row, old(self).settings()),
            is_step(out, old(self)@, *row, old(self).settings()),
    {
        let ghost s = self.settings();
        let start: i64 = floor_to(row.ts_bucket, self.session_minutes * MINUTE_US);
        let reset: bool = match self.start {
            Some(now) => now != start,
            None => true,
        };
        if reset {
            self.reset_for_session(start);
        }
        let ghost now = self@;
        let outs: usize = self.outputs.len();
        let bar: RangeBar = match minute_range_bar(row) {
            Some(bar) => bar,
            None => {
                let mut reported: Vec<bool> = Vec::new();
                let mut w: usize = 0;
                while w < outs
                    invariant
                        w <= outs,
                        reported@.len() == w,
                        forall|i: int| 0 <= i < w ==> !(#[trigger] reported@[i]),
                    decreases outs - w,
                {
                    reported.push(false);
                    w += 1;
                }
                return TpoStep { reset, bar: None, reported };
            },
        };
        let ghost lows_before = self.lows@;
        let ghost highs_before = self.highs@;
        let ghost bars_before = self.bars@;
        insert_sorted(&mut self.lows, bar.low);
        insert_sorted(&mut self.highs, bar.high);
        self.bars.push(bar);
        proof {
            let lows = lows_of(self.bars@);
            let highs = highs_of(self.bars@);
            assert(lows.drop_last() =~= lows_of(bars_before));
            assert(highs.drop_last() =~= highs_of(bars_before));
            assert forall|limit: int| count_below(self.lows@, limit) == #[trigger] count_below(
                lows,
                limit,
            ) by {
                assert(count_below(lows_before, limit) == count_below(
                    lows_of(bars_before),
                    limit,
                ));
            }
            assert forall|limit: int| count_below(self.highs@, limit) == #[trigger] count_below(
                highs,
                limit,
            ) by {
                assert(count_below(highs_before, limit) == count_below(
                    highs_of(bars_before),
                    limit,
                ));
            }
        }
        let asked: i64 = if self.ib_minutes < 1 {
            1
        } else {
            self.ib_minutes
        };
        let ib_end: i64 = start + asked * MINUTE_US;
        if bar.ts_bucket >= start && bar.ts_bucket < ib_end {
            self.ib_high =
            Some(
                match self.ib_high {
                    None => bar.high,
                    Some(high) => upper_key(high, bar.high),
                },
            );
            self.ib_low =
            Some(
                match self.ib_low {
                    None => bar.low,
                    Some(low) => lower_key(low, bar.low),
                },
            );
        }
        proof {
            assert(self.bars@.drop_last() =~= bars_before);
            assert(has_keys(bar));
            assert forall|i: int| 0 <= i < self.bars@.len() implies has_keys(
                #[trigger] self.bars@[i],
            ) by {
                if i < bars_before.len() {
                    assert(self.bars@[i] == bars_before[i]);
                    assert(has_keys(bars_before[i]));
                }
            }
        }
        let known: bool = self.profile_range().is_some();
        let anchor: i64 = row.ts_bucket + MINUTE_US;
        let ghost dev_before = self.dev@;
        let ghost held = *self;
        let mut reported: Vec<bool> = Vec::new();
        let mut w: usize = 0;
        while w < outs
            invariant
                w <= outs,
                outs == held.outputs@.len(),
                held.well_formed(),
                dev_before == held.dev@,
                dev_before.len() == outs,
                self.dev@.len() == outs,
                self.session_minutes == held.session_minutes,
                self.ib_minutes == held.ib_minutes,
                self.outputs == held.outputs,
                self.start == held.start,
                self.bars == held.bars,
                self.lows == held.lows,
                self.highs == held.highs,
                self.ib_high == held.ib_high,
                self.ib_low == held.ib_low,
                anchor == row.ts_bucket + MINUTE_US,
                -clock::INSTANT_LIMIT_US <= row.ts_bucket <= clock::INSTANT_LIMIT_US - MINUTE_US,
                reported@.len() == w,
                forall|i: int| w <= i < outs ==> #[trigger] self.dev@[i] == dev_before[i],
                forall|i: int|
                    0 <= i < w ==> (#[trigger] self.dev@[i])@ == if known && avwap::is_anchor(
                        anchor as int,
                        held.outputs@[i] as int,
                    ) {
                        dev_before[i]@.push(anchor)
                    } else {
                        dev_before[i]@
                    },
                forall|i: int|
                    0 <= i < w ==> #[trigger] reported@[i] == (known && avwap::is_anchor(
                        anchor as int,
                        held.outputs@[i] as int,
                    )),
            decreases outs - w,
        {
            let ghost devs = self.dev@;
            assert(0 < held.outputs@[w as int] <= clock::WINDOW_LIMIT_MINUTES);
            if known && anchors(anchor, self.outputs[w]) {
                self.dev[w].push(anchor);
                reported.push(true);
            } else {
                reported.push(false);
            }
            proof {
                assert(forall|i: int| 0 <= i < outs && i != w ==> #[trigger] self.dev@[i]
                    == devs[i]);
            }
            w += 1;
        }
        proof {
            assert(self@.dev =~= taken(old(self)@, *row, s).dev);
        }
        TpoStep { reset, bar: Some(bar), reported }
    }
}

/// Whether a step says what a minute changed of a session.
pub open spec fn is_step(
    step: TpoStep,
    before: SessionModel,
    row: TpoMinute,
    s: SessionSettings,
) -> bool {
    &&& step.reset == (before.start != Some(session_start(row.ts_bucket, s.session_minutes)))
    &&& step.bar == bar_of(row)
    &&& step.reported@.len() == s.outputs.len()
    &&& forall|w: int|
        0 <= w < s.outputs.len() ==> #[trigger] step.reported@[w] == (step.bar is Some
            && has_profile(taken(before, row, s).bars) && avwap::is_anchor(
            row.ts_bucket + MINUTE_US,
            s.outputs[w] as int,
        ))
}

/// What is held of a session after the first `n` rows came in one by one.
pub open spec fn followed(
    m: SessionModel,
    rows: Seq<TpoMinute>,
    s: SessionSettings,
    n: int,
) -> SessionModel
    decreases n,
{
    if n <= 0 {
        m
    } else {
        taken(followed(m, rows, s, n - 1), rows[n - 1], s)
    }
}

/// The ranges of those of the first `n` rows that are of the session that started at
/// an instant.
pub open spec fn session_bars(rows: Seq<TpoMinute>, start: i64, minutes: i64, n: int) -> Seq<
    RangeBar,
>
    decreases n,
{
    if n <= 0 {
        Seq::empty()
    } else {
        let rest = session_bars(rows, start, minutes, n - 1);
        match bar_of(rows[n - 1]) {
            Some(bar) if session_start(rows[n - 1].ts_bucket, minutes) == start => rest.push(bar),
            _ => rest,
        }
    }
}

/// The ends of bars of some minutes among the first `n` rows, in the session that started
/// at an instant, at which the session so far makes a profile.
pub open spec fn session_anchors(
    rows: Seq<TpoMinute>,
    start: i64,
    minutes: i64,
    output: i64,
    n: int,
) -> Seq<i64>
    decreases n,
{
    if n <= 0 {
        Seq::empty()
    } else {
        let rest = session_anchors(rows, start, minutes, output, n - 1);
        let anchor = (rows[n - 1].ts_bucket + MINUTE_US) as i64;
        if session_start(rows[n - 1].ts_bucket, minutes) == start && bar_of(rows[n - 1]) is Some
            && has_profile(session_bars(rows, start, minutes, n)) && avwap::is_anchor(
            anchor as int,
            output as int,
        ) {
            rest.push(anchor)
        } else {
            rest
        }
    }
}

/// Whether a session holds what rows say of the session of the last one: its ranges, and
/// an instant wherever a bar of an output window ends and a profile can be made.
pub open spec fn holds_session(
    m: SessionModel,
    rows: Seq<TpoMinute>,
    s: SessionSettings,
    n: int,
) -> bool {
    let start = session_start(rows[n - 1].ts_bucket, s.session_minutes);
    &&& m.start == Some(start)
    &&& m.bars == session_bars(rows, start, s.session_minutes, n)
    &&& m.dev.len() == s.outputs.len()
    &&& forall|w: int|
        0 <= w < s.outputs.len() ==> #[trigger] m.dev[w] == session_anchors(
            rows,
            start,
            s.session_minutes,
            s.outputs[w],
            n,
        )
}

proof fn lemma_other_session(
    rows: Seq<TpoMinute>,
    start: i64,
    minutes: i64,
    output: i64,
    n: int,
)
    requires
        forall|i: int|
            0 <= i < n ==> session_start((#[trigger] rows[i]).ts_bucket, minutes) != start,
    ensures
        session_bars(rows, start, minutes, n) == Seq::<RangeBar>::empty(),
        session_anchors(rows, start, minutes, output, n) == Seq::<i64>::empty(),
    decreases n,
{
    if n > 0 {
        assert(session_start(rows[n - 1].ts_bucket, minutes) != start);
        lemma_other_session(rows, start, minutes, output, n - 1);
    }
}

proof fn lemma_session_starts_in_order(a: i64, b: i64, minutes: i64)
    requires
        -clock::INSTANT_LIMIT_US <= a <= b <= clock::INSTANT_LIMIT_US,
        0 < minutes <= clock::WINDOW_LIMIT_MINUTES,
    ensures
        session_start(a, minutes) <= session_start(b, minutes),
{
    let step = minutes * MINUTE_US;
    assert(0 < step <= clock::WINDOW_LIMIT_MINUTES * MINUTE_US) by (nonlinear_arith)
        requires
            0 < minutes <= clock::WINDOW_LIMIT_MINUTES,
            step == minutes * MINUTE_US,
    ;
    clock::law_floor(a as int, step);
    clock::law_floor(b as int, step);
    assert(clock::floor_spec(a as int, step) <= clock::floor_spec(b as int, step)) by {
        vstd::arithmetic::div_mod::lemma_div_is_ordered(a as int, b as int, step);
        vstd::arithmetic::mul::lemma_mul_inequality(a as int / step, b as int / step, step);
    }
}

/// A session that follows minutes in order from the start holds the minutes of the
/// session of the last one, and no others.
#[verifier::rlimit(40)]
#[verifier::spinoff_prover]
pub proof fn law_session_holds_its_minutes(
    start: i64,
    rows: Seq<TpoMinute>,
    s: SessionSettings,
    n: int,
)
    requires
        0 < n <= rows.len(),
        0 < s.session_minutes <= clock::WINDOW_LIMIT_MINUTES,
        history::in_order(history::stamps(rows)),
        forall|i: int|
            0 <= i < rows.len() ==> clock::is_instant((#[trigger] rows[i]).ts_bucket),
    ensures
        holds_session(followed(fresh_session(start, s), rows, s, n), rows, s, n),
    decreases n,
{
    let ts = history::stamps(rows);
    let minutes = s.session_minutes;
    let first = fresh_session(start, s);
    let before = followed(first, rows, s, n - 1);
    let now = followed(first, rows, s, n);
    let row = rows[n - 1];
    assert(now == taken(before, row, s));
    let at = session_start(row.ts_bucket, minutes);
    assert(clock::is_instant(row.ts_bucket));
    if n > 1 {
        law_session_holds_its_minutes(start, rows, s, n - 1);
        assert(ts[n - 2] <= ts[n - 1]);
        assert(clock::is_instant(rows[n - 2].ts_bucket));
        lemma_session_starts_in_order(rows[n - 2].ts_bucket, row.ts_bucket, minutes);
    }
    let held = if before.start == Some(at) {
        before
    } else {
        fresh_session(at, s)
    };
    assert(held.bars == session_bars(rows, at, minutes, n - 1) && held.dev.len()
        == s.outputs.len()) by {
        if n > 1 && before.start != Some(at) {
            lemma_earlier_sessions(rows, minutes, n);
            lemma_other_session(rows, at, minutes, 1, n - 1);
        }
    }
    assert forall|w: int| 0 <= w < s.outputs.len() implies held.dev[w] == session_anchors(
        rows,
        at,
        minutes,
        s.outputs[w],
        n - 1,
    ) by {
        if n > 1 && before.start != Some(at) {
            lemma_earlier_sessions(rows, minutes, n);
            lemma_other_session(rows, at, minutes, s.outputs[w], n - 1);
        }
    }
    assert(now.bars == session_bars(rows, at, minutes, n));
    assert forall|w: int| 0 <= w < s.outputs.len() implies #[trigger] now.dev[w]
        == session_anchors(rows, at, minutes, s.outputs[w], n) by {
        assert(held.dev[w] == session_anchors(rows, at, minutes, s.outputs[w], n - 1));
    }
}

proof fn lemma_earlier_sessions(rows: Seq<TpoMinute>, minutes: i64, n: int)
    requires
        1 < n <= rows.len(),
        0 < minutes <= clock::WINDOW_LIMIT_MINUTES,
        history::in_order(history::stamps(rows)),
        forall|i: int|
            0 <= i < rows.len() ==> clock::is_instant((#[trigger] rows[i]).ts_bucket),
        session_start(rows[n - 2].ts_bucket, minutes) != session_start(
            rows[n - 1].ts_bucket,
            minutes,
        ),
    ensures
        forall|i: int|
            0 <= i < n - 1 ==> session_start((#[trigger] rows[i]).ts_bucket, minutes)
                != session_start(rows[n - 1].ts_bucket, minutes),
{
    let ts = history::stamps(rows);
    assert(clock::is_instant(rows[n - 1].ts_bucket));
    assert(clock::is_instant(rows[n - 2].ts_bucket));
    assert(ts[n - 2] <= ts[n - 1]);
    lemma_session_starts_in_order(rows[n - 2].ts_bucket, rows[n - 1].ts_bucket, minutes);
    assert forall|i: int| 0 <= i < n - 1 implies session_start(
        (#[trigger] rows[i]).ts_bucket,
        minutes,
    ) != session_start(rows[n - 1].ts_bucket, minutes) by {
        assert(ts[i] <= ts[n - 2]);
        assert(clock::is_instant(rows[i].ts_bucket));
        lemma_session_starts_in_order(rows[i].ts_bucket, rows[n - 2].ts_bucket, minutes);
    }
}

/// The running state of all sessions.
#[derive(Debug)]
pub struct TpoState {
    sessions: Vec<TpoSessionState>,
    last_ts: Option<i64>,
}

/// What is held of all sessions.
pub struct TpoModel {
    pub sessions: Seq<SessionModel>,
    pub last_ts: Option<i64>,
}

impl View for TpoState {
    type V = TpoModel;

    closed spec fn view(&self) -> TpoModel {
        TpoModel {
            sessions: Seq::new(self.sessions@.len(), |k: int| self.sessions@[k]@),
            last_ts: self.last_ts,
        }
    }
}

/// What is held of all sessions after one more minute.
pub open spec fn all_taken(m: TpoModel, row: TpoMinute, s: Seq<SessionSettings>) -> TpoModel {
    TpoModel {
        sessions: Seq::new(m.sessions.len(), |k: int| taken(m.sessions[k], row, s[k])),
        last_ts: Some(row.ts_bucket),
    }
}

/// What is held of all sessions after the first `n` rows came in one by one.
pub open spec fn all_followed(
    m: TpoModel,
    rows: Seq<TpoMinute>,
    s: Seq<SessionSettings>,
    n: int,
) -> TpoModel
    decreases n,
{
    if n <= 0 {
        m
    } else {
        all_taken(all_followed(m, rows, s, n - 1), rows[n - 1], s)
    }
}

/// Empty sessions around a minute.
pub open spec fn all_fresh(ts_bucket: i64, s: Seq<SessionSettings>) -> TpoModel {
    TpoModel {
        sessions: Seq::new(
            s.len(),
            |k: int| fresh_session(session_start(ts_bucket, s[k].session_minutes), s[k]),
        ),
        last_ts: None,
    }
}

/// Whether steps say what a minute changed of each session.
pub open spec fn are_session_steps(
    steps: Seq<TpoStep>,
    before: TpoModel,
    row: TpoMinute,
    s: Seq<SessionSettings>,
) -> bool {
    &&& steps.len() == before.sessions.len()
    &&& forall|k: int|
        0 <= k < steps.len() ==> is_step(#[trigger] steps[k], before.sessions[k], row, s[k])
}

/// What is held of all sessions after they were brought up to the end of a history: with
/// the rows after their last minute, or from the start around a minute.
pub open spec fn all_synced(
    m: TpoModel,
    ts_bucket: i64,
    rows: Seq<TpoMinute>,
    s: Seq<SessionSettings>,
) -> TpoModel {
    match history::sync_plan(history::stamps(rows), m.last_ts) {
        SyncPlan::Rebuild => all_followed(all_fresh(ts_bucket, s), rows, s, rows.len() as int),
        SyncPlan::Nothing => m,
        SyncPlan::From(k) => all_followed(
            m,
            rows.subrange(k as int, rows.len() as int),
            s,
            rows.len() - k,
        ),
    }
}

/// Whether a function may be asked for a report on sessions.
pub open spec fn can_report<R, F: Fn(&TpoState, &TpoMinute, &Vec<TpoStep>) -> R>(report: F) -> bool {
    forall|state: &TpoState, row: &TpoMinute, steps: &Vec<TpoStep>|
        state.well_formed() && steps@.len() == state@.sessions.len() ==> #[trigger] call_requires(
            report,
            (state, row, steps),
        )
}

/// Whether a report was made when a minute had come in: of the sessions after it, and of
/// what it changed of them.
pub open spec fn is_report<R, F: Fn(&TpoState, &TpoMinute, &Vec<TpoStep>) -> R>(
    r: R,
    report: F,
    before: TpoModel,
    row: TpoMinute,
    s: Seq<SessionSettings>,
) -> bool {
    exists|state: &TpoState, steps: &Vec<TpoStep>|
        {
            &&& #[trigger] call_ensures(report, (state, &row, steps), r)
            &&& state@ == all_taken(before, row, s)
            &&& state.settings() == s
            &&& are_session_steps(steps@, before, row, s)
        }
}

/// Whether reports were made after each of the first `n` rows.
pub open spec fn are_reports<R, F: Fn(&TpoState, &TpoMinute, &Vec<TpoStep>) -> R>(
    reports: Seq<R>,
    report: F,
    m: TpoModel,
    rows: Seq<TpoMinute>,
    s: Seq<SessionSettings>,
    n: int,
) -> bool {
    &&& reports.len() == n
    &&& forall|i: int|
        0 <= i < n ==> is_report(
            #[trigger] reports[i],
            report,
            all_followed(m, rows, s, i),
            rows[i],
            s,
        )
}

/// How the sessions were brought up to the end of a history, with a report on each row.
#[derive(Clone, Debug, PartialEq, Eq)]
pub enum TpoSync<R> {
    /// They were there already.
    Nothing,
    /// They started over.
    Rebuilt(Vec<R>),
    /// They went on with the rows from this place.
    Continued { from: usize, reports: Vec<R> },
}

/// Whether what is told is how the sessions are brought up to the end of a history.
pub open spec fn tells_sync<R, F: Fn(&TpoState, &TpoMinute, &Vec<TpoStep>) -> R>(
    out: TpoSync<R>,
    report: F,
    before: TpoModel,
    ts_bucket: i64,
    rows: Seq<TpoMinute>,
    s: Seq<SessionSettings>,
) -> bool {
    match (history::sync_plan(history::stamps(rows), before.last_ts), out) {
        (SyncPlan::Nothing, TpoSync::Nothing) => true,
        (SyncPlan::Rebuild, TpoSync::Rebuilt(reports)) => are_reports(
            reports@,
            report,
            all_fresh(ts_bucket, s),
            rows,
            s,
            rows.len() as int,
        ),
        (SyncPlan::From(k), TpoSync::Continued { from, reports }) => from == k && are_reports(
            reports@,
            report,
            before,
            rows.subrange(k as int, rows.len() as int),
            s,
            rows.len() - k,
        ),
        _ => false,
    }
}

/// Whether all rows can be taken in.
pub open spec fn rows_are_sound(rows: Seq<TpoMinute>) -> bool {
    forall|i: int|
        0 <= i < rows.len() ==> minute_has_keys(#[trigger] rows[i]) && -clock::INSTANT_LIMIT_US
            <= rows[i].ts_bucket <= clock::INSTANT_LIMIT_US - MINUTE_US
}

impl TpoState {
    /// What the sessions were made with.
    pub closed spec fn settings(&self) -> Seq<SessionSettings> {
        Seq::new(self.sessions@.len(), |k: int| self.sessions@[k].settings())
    }

    /// Whether every session is well formed.
    pub closed spec fn well_formed(&self) -> bool {
        &&& forall|k: int|
            0 <= k < self.sessions@.len() ==> (#[trigger] self.sessions@[k]).well_formed()
        &&& self.last_ts matches Some(last) ==> last <= clock::INSTANT_LIMIT_US
    }

    /// Sessions that have not followed anything.
    pub fn new(sessions: Vec<TpoSessionState>) -> (out: Self)
        requires
            forall|k: int| 0 <= k < sessions@.len() ==> (#[trigger] sessions@[k]).well_formed(),
        ensures
            out.well_formed(),
            out@.last_ts is None,
            out@.sessions == Seq::new(sessions@.len(), |k: int| sessions@[k]@),
            out.settings() == Seq::new(sessions@.len(), |k: int| sessions@[k].settings()),
    {
        TpoState { sessions, last_ts: None }
    }

    /// How many sessions there are.
    pub fn len(&self) -> (out: usize)
        ensures
            out == self@.sessions.len(),
    {
        self.sessions.len()
    }

    /// A session.
    pub fn session(&self, k: usize) -> (out: &TpoSessionState)
        requires
            self.well_formed(),
            k < self@.sessions.len(),
        ensures
            out.well_formed(),
            out@ == self@.sessions[k as int],
            out.settings() == self.settings()[k as int],
    {
        &self.sessions[k]
    }

    /// How the state is brought up to the end of a history.
    pub fn plan(&self, rows: &[TpoMinute]) -> (out: SyncPlan)
        requires
            self.well_formed(),
        ensures
            out == history::sync_plan(history::stamps(rows@), self@.last_ts),
            out matches SyncPlan::From(k) ==> k <= rows@.len(),
    {
        plan_sync(rows, self.last_ts)
    }

    /// Empties all sessions around a minute.
    pub fn start_over(&mut self, ts_bucket: i64)
        requires
            old(self).well_formed(),
            clock::is_instant(ts_bucket),
        ensures
            final(self).well_formed(),
            final(self).settings() == old(self).settings(),
            final(self)@ == all_fresh(ts_bucket, old(self).settings()),
    {
        let ghost s = self.settings();
        let n: usize = self.sessions.len();
        let mut k: usize = 0;
        while k < n
            invariant
                k <= n,
                n == self.sessions@.len(),
                n == s.len(),
                clock::is_instant(ts_bucket),
                self.well_formed(),
                self.settings() == s,
                forall|i: int|
                    0 <= i < k ==> (#[trigger] self.sessions@[i])@ == fresh_session(
                        session_start(ts_bucket, s[i].session_minutes),
                        s[i],
                    ),
            decreases n - k,
        {
            let ghost before = self.sessions@;
            proof {
                assert(before[k as int].well_formed());
                assert(s[k as int] == before[k as int].settings());
            }
            let start: i64 = floor_to(ts_bucket, self.sessions[k].session_minutes * MINUTE_US);
            self.sessions[k].reset_for_session(start);
            proof {
                assert(forall|i: int|
                    0 <= i < n && i != k ==> #[trigger] self.sessions@[i] == before[i]);
                assert(self.settings() =~= s);
            }
            k += 1;
        }
        self.last_ts = None;
        proof {
            assert(self@.sessions =~= all_fresh(ts_bucket, s).sessions);
            assert(self.settings() =~= s);
        }
    }

    /// Takes rows into all sessions one by one, with a report after each.
    fn append_all<R, F: Fn(&TpoState, &TpoMinute, &Vec<TpoStep>) -> R>(
        &mut self,
        rows: &[TpoMinute],
        report: &F,
    ) -> (out: Vec<R>)
        requires
            old(self).well_formed(),
            rows_are_sound(rows@),
            can_report(*report),
        ensures
            final(self).well_formed(),
            final(self).settings() == old(self).settings(),
            final(self)@ == all_followed(
                old(self)@,
                rows@,
                old(self).settings(),
                rows@.len() as int,
            ),
            are_reports(
                out@,
                *report,
                old(self)@,
                rows@,
                old(self).settings(),
                rows@.len() as int,
            ),
    {
        let ghost s = self.settings();
        let ghost start = self@;
        let mut out: Vec<R> = Vec::new();
        let mut i: usize = 0;
        while i < rows.len()
            invariant
                i <= rows@.len(),
                self.well_formed(),
                self.settings() == s,
                rows_are_sound(rows@),
                can_report(*report),
                self@ == all_followed(start, rows@, s, i as int),
                are_reports(out@, *report, start, rows@, s, i as int),
            decreases rows@.len() - i,
        {
            assert(minute_has_keys(rows@[i as int]));
            let ghost before = self@;
            let steps: Vec<TpoStep> = self.append_history_row(&rows[i]);
            let state: &TpoState = &*self;
            let r: R = report(state, &rows[i], &steps);
            proof {
                assert(are_session_steps(steps@, before, rows@[i as int], s));
                assert(is_report(r, *report, before, rows@[i as int], s));
            }
            out.push(r);
            i += 1;
        }
        out
    }

    /// Brings all sessions up to the end of a history: with the rows after their last
    /// minute, or from the start, empty around a minute. After each row a report is made.
    pub fn sync<R, F: Fn(&TpoState, &TpoMinute, &Vec<TpoStep>) -> R>(
        &mut self,
        ts_bucket: i64,
        rows: &[TpoMinute],
        report: F,
    ) -> (out: TpoSync<R>)
        requires
            old(self).well_formed(),
            clock::is_instant(ts_bucket),
            rows_are_sound(rows@),
            can_report(report),
        ensures
            final(self).well_formed(),
            final(self).settings() == old(self).settings(),
            final(self)@ == all_synced(old(self)@, ts_bucket, rows@, old(self).settings()),
            tells_sync(out, report, old(self)@, ts_bucket, rows@, old(self).settings()),
    {
        match self.plan(rows) {
            SyncPlan::Rebuild => {
                self.start_over(ts_bucket);
                TpoSync::Rebuilt(self.append_all(rows, &report))
            },
            SyncPlan::Nothing => TpoSync::Nothing,
            SyncPlan::From(from) => {
                let tail = vstd::slice::slice_subrange(rows, from, rows.len());
                proof {
                    assert forall|i: int| 0 <= i < tail@.len() implies minute_has_keys(
                        #[trigger] tail@[i],
                    ) && -clock::INSTANT_LIMIT_US <= tail@[i].ts_bucket <= clock::INSTANT_LIMIT_US
                        - MINUTE_US by {
                        assert(tail@[i] == rows@[from + i]);
                    }
                }
                TpoSync::Continued { from, reports: self.append_all(tail, &report) }
            },
        }
    }

    /// Takes one minute into all sessions.
    pub fn append_history_row(&mut self, row: &TpoMinute) -> (out: Vec<TpoStep>)
        requires
            old(self).well_formed(),
            minute_has_keys(*row),
            -clock::INSTANT_LIMIT_US <= row.ts_bucket <= clock::INSTANT_LIMIT_US - MINUTE_US,
        ensures
            final(self).well_formed(),
            final(self).settings() == old(self).settings(),
            final(self)@ == all_taken(old(self)@, *row, old(self).settings()),
            out@.len() == old(self)@.sessions.len(),
            forall|k: int|
                0 <= k < out@.len() ==> is_step(
                    #[trigger] out@[k],
                    old(self)@.sessions[k],
                    *row,
                    old(self).settings()[k],
                ),
    {
        let ghost s = self.settings();
        let ghost start = self.sessions@;
        let n: usize = self.sessions.len();
        let mut out: Vec<TpoStep> = Vec::new();
        let mut k: usize = 0;
        while k < n
            invariant
                k <= n,
                n == self.sessions@.len(),
                n == s.len(),
                n == start.len(),
                minute_has_keys(*row),
                -clock::INSTANT_LIMIT_US <= row.ts_bucket <= clock::INSTANT_LIMIT_US - MINUTE_US,
                self.well_formed(),
                self.settings() == s,
                forall|i: int| 0 <= i < n ==> s[i] == (#[trigger] start[i]).settings(),
                forall|i: int| k <= i < n ==> #[trigger] self.sessions@[i] == start[i],
                forall|i: int|
                    0 <= i < k ==> (#[trigger] self.sessions@[i])@ == taken(
                        start[i]@,
                        *row,
                        s[i],
                    ),
                out@.len() == k,
                forall|i: int|
                    0 <= i < k ==> is_step(#[trigger] out@[i], start[i]@, *row, s[i]),
            decreases n - k,
        {
            let ghost before = self.sessions@;
            proof {
                assert(before[k as int].well_formed());
                assert(s[k as int] == start[k as int].settings());
            }
            let step: TpoStep = self.sessions[k].append_history_row(row);
            out.push(step);
            proof {
                assert(forall|i: int|
                    0 <= i < n && i != k ==> #[trigger] self.sessions@[i] == before[i]);
                assert(self.settings() =~= s);
            }
            k += 1;
        }
        self.last_ts = Some(row.ts_bucket);
        proof {
            assert(self@.sessions =~= all_taken(old(self)@, *row, s).sessions);
            assert(self.settings() =~= s);
        }
        out
    }
}

proof fn lemma_all_followed_split(
    m: TpoModel,
    rows: Seq<TpoMinute>,
    s: Seq<SessionSettings>,
    k: int,
    n: int,
)
    requires
        0 <= k <= n <= rows.len(),
    ensures
        all_followed(m, rows, s, n) == all_followed(
            all_followed(m, rows.take(k), s, k),
            rows.subrange(k, rows.len() as int),
            s,
            n - k,
        ),
    decreases n,
{
    if n == k {
        lemma_all_followed_prefix(m, rows, s, k, k);
    } else {
        lemma_all_followed_split(m, rows, s, k, n - 1);
        assert(rows.subrange(k, rows.len() as int)[n - 1 - k] == rows[n - 1]);
    }
}

proof fn lemma_all_followed_prefix(
    m: TpoModel,
    rows: Seq<TpoMinute>,
    s: Seq<SessionSettings>,
    k: int,
    n: int,
)
    requires
        0 <= n <= k <= rows.len(),
    ensures
        all_followed(m, rows, s, n) == all_followed(m, rows.take(k), s, n),
    decreases n,
{
    if n > 0 {
        lemma_all_followed_prefix(m, rows, s, k, n - 1);
        assert(rows.take(k)[n - 1] == rows[n - 1]);
    }
}

/// A state that followed the first `k` minutes plans to go on with the next one, and
/// holds in the end what a state holds that followed all minutes from the start.
pub proof fn law_sync_continues(
    m: TpoModel,
    rows: Seq<TpoMinute>,
    s: Seq<SessionSettings>,
    k: int,
)
    requires
        0 < k < rows.len() <= usize::MAX,
        history::minutes_apart(history::stamps(rows)),
        forall|i: int|
            0 <= i < rows.len() ==> -clock::INSTANT_LIMIT_US <= (#[trigger] rows[i]).ts_bucket
                <= clock::INSTANT_LIMIT_US,
    ensures
        ({
            let before = all_followed(m, rows.take(k), s, k);
            &&& history::sync_plan(history::stamps(rows), before.last_ts) == SyncPlan::From(
                k as usize,
            )
            &&& all_followed(
                before,
                rows.subrange(k, rows.len() as int),
                s,
                rows.len() - k,
            ) == all_followed(m, rows, s, rows.len() as int)
        }),
{
    let ts = history::stamps(rows);
    assert(rows[k - 1].ts_bucket <= clock::INSTANT_LIMIT_US);
    assert(rows.take(k)[k - 1] == rows[k - 1]);
    history::law_sync_goes_on(ts, k);
    lemma_all_followed_split(m, rows, s, k, rows.len() as int);
}

/// What is held of all sessions is, session by session, what each holds that followed the
/// rows by itself.
pub proof fn law_sessions_follow_alone(
    m: TpoModel,
    rows: Seq<TpoMinute>,
    s: Seq<SessionSettings>,
    k: int,
    n: int,
)
    requires
        0 <= k < m.sessions.len(),
        0 <= n <= rows.len(),
    ensures
        all_followed(m, rows, s, n).sessions.len() == m.sessions.len(),
        all_followed(m, rows, s, n).sessions[k] == followed(m.sessions[k], rows, s[k], n),
    decreases n,
{
    if n > 0 {
        law_sessions_follow_alone(m, rows, s, k, n - 1);
    }
}

/// A minute trades from its low to its high. Where either is not known its close stands for
/// it, or else its last price, or else its open; a minute that knows none has no range.
pub proof fn law_minute_range(row: TpoMinute)
    ensures
        bar_of(row) matches Some(bar) ==> {
            &&& bar.ts_bucket == row.ts_bucket
            &&& row.high matches Some(k) ==> bar.high == k
            &&& row.low matches Some(k) ==> bar.low == k
            &&& row.close matches Some(k) ==> (row.high is None ==> bar.high == k) && (row.low
                is None ==> bar.low == k)
            &&& row.close is None ==> (row.last matches Some(k) ==> (row.high is None ==> bar.high
                == k) && (row.low is None ==> bar.low == k))
            &&& row.close is None && row.last is None ==> (row.open matches Some(k) ==> (row.high
                is None ==> bar.high == k) && (row.low is None ==> bar.low == k))
        },
        bar_of(row) is None <==> row.close is None && row.last is None && row.open is None && (
        row.high is None || row.low is None),
{
}

/// How many keys are below a limit goes up by one with each further one that is, and by
/// nothing else.
pub proof fn law_count_below(keys: Seq<Key>, key: Key, limit: int)
    ensures
        key < limit ==> count_below(keys.push(key), limit) == count_below(keys, limit) + 1,
        key >= limit ==> count_below(keys.push(key), limit) == count_below(keys, limit),
        count_below(Seq::empty(), limit) == 0,
{
    assert(keys.push(key).drop_last() =~= keys);
}

/// A further minute that trades through a row, from below its upper border to its lower border
/// or above, adds one to the row's score, and no other changes it. The uppermost row has no
/// upper border.
pub proof fn law_minute_scores_where_it_trades(
    bars: Seq<RangeBar>,
    bar: RangeBar,
    thresholds: Seq<Key>,
    row: int,
)
    requires
        0 <= row < thresholds.len(),
    ensures
        covering(Seq::empty(), thresholds, row) == 0,
        bar.high >= thresholds[row] && (row == thresholds.len() - 1 || bar.low < thresholds[row
            + 1]) ==> covering(bars.push(bar), thresholds, row) == covering(bars, thresholds, row)
            + 1,
        bar.high < thresholds[row] ==> covering(bars.push(bar), thresholds, row) == covering(
            bars,
            thresholds,
            row,
        ),
        row < thresholds.len() - 1 && bar.low >= thresholds[row + 1] ==> covering(
            bars.push(bar),
            thresholds,
            row,
        ) == covering(bars, thresholds, row),
{
    assert(bars.push(bar).drop_last() =~= bars);
}

/// No row has a higher score than the point of control, and none below it has as high a one.
pub proof fn law_point_of_control(scores: Seq<i64>, i: int, j: int)
    requires
        is_poc(scores, i),
        0 <= j < scores.len(),
    ensures
        0 <= i < scores.len(),
        scores[j] <= scores[i],
        j < i ==> scores[j] < scores[i],
{
}

/// The sum over rows grows by each row at its upper end, and by nothing over no rows.
pub proof fn law_score_sum(scores: Seq<i64>, lo: int, hi: int)
    requires
        0 <= lo < hi <= scores.len(),
    ensures
        score_sum(scores, lo, lo) == 0,
        score_sum(scores, lo, hi) == score_sum(scores, lo, hi - 1) + scores[hi - 1],
        score_sum(scores, lo, hi) == scores[lo] + score_sum(scores, lo + 1, hi),
    decreases hi - lo,
{
    if hi - lo > 1 {
        law_score_sum(scores, lo, hi - 1);
    } else {
        assert(score_sum(scores, lo, lo) == 0);
        assert(score_sum(scores, lo + 1, lo + 1) == 0);
    }
}

/// A value area that has enough stays as it is. One that has not grows to the side whose next
/// row has the higher score, upwards where both are equal, and to the only side where there is
/// but one.
pub proof fn law_value_area_grows_where_more_was_traded(
    scores: Seq<i64>,
    lo: int,
    hi: int,
    needed: i64,
)
    requires
        0 <= lo <= hi < scores.len(),
        forall|i: int| 0 <= i < scores.len() ==> (#[trigger] scores[i]) >= 0,
    ensures
        ({
            let (a, b) = widened(scores, lo, hi, needed);
            let enough = score_sum(scores, lo, hi + 1) >= needed;
            &&& enough ==> (a, b) == (lo, hi)
            &&& !enough && lo > 0 && hi + 1 < scores.len() && scores[hi + 1] >= scores[lo - 1] ==> b
                > hi
            &&& !enough && lo > 0 && hi + 1 < scores.len() && scores[hi + 1] < scores[lo - 1] ==> a
                < lo
            &&& !enough && lo == 0 && hi + 1 < scores.len() ==> b > hi
            &&& !enough && lo > 0 && hi + 1 == scores.len() ==> a < lo
        }),
{
    law_value_area_is_enough(scores, lo, hi, needed);
    if hi + 1 < scores.len() {
        law_value_area_is_enough(scores, lo, hi + 1, needed);
    }
    if lo > 0 {
        law_value_area_is_enough(scores, lo - 1, hi, needed);
    }
}

/// A value area is no larger than needed: without one of its outermost rows it would not be
/// enough, unless it is where it started.
pub proof fn law_value_area_is_no_larger(scores: Seq<i64>, lo: int, hi: int, needed: i64)
    requires
        0 <= lo <= hi < scores.len(),
        forall|i: int| 0 <= i < scores.len() ==> (#[trigger] scores[i]) >= 0,
    ensures
        ({
            let (a, b) = widened(scores, lo, hi, needed);
            (a, b) == (lo, hi) || (b > hi && score_sum(scores, a, b) < needed) || (a < lo
                && score_sum(scores, a + 1, b + 1) < needed)
        }),
    decreases scores.len() - (hi - lo),
{
    if score_sum(scores, lo, hi + 1) >= needed || (lo == 0 && hi == scores.len() - 1) {
    } else if hi + 1 < scores.len() && score_or_none(scores, hi + 1) >= score_or_none(
        scores,
        lo - 1,
    ) {
        law_value_area_is_no_larger(scores, lo, hi + 1, needed);
        law_value_area_is_enough(scores, lo, hi + 1, needed);
    } else {
        law_value_area_is_no_larger(scores, lo - 1, hi, needed);
        law_value_area_is_enough(scores, lo - 1, hi, needed);
    }
}

/// A zone is a run of rows that were traded through once, with no such row next to it.
pub proof fn law_zones(scores: Seq<i64>, a: int, b: int, i: int)
    requires
        is_zone(scores, a, b),
        0 <= i < scores.len(),
    ensures
        0 <= a <= b < scores.len(),
        a <= i <= b ==> scores[i] == 1,
        i == a - 1 || i == b + 1 ==> scores[i] != 1,
{
}

/// The session reported first is the last one of those with the name of the first.
pub proof fn law_primary(codes: Seq<String>, hi: int, j: int)
    requires
        0 <= hi <= codes.len(),
    ensures
        primary(codes, hi) is Some <==> hi > 0,
        primary(codes, hi) matches Some(i) ==> 0 <= i < hi && codes[i]@ == codes[0]@ && (i < j < hi
            ==> codes[j]@ != codes[0]@),
    decreases hi,
{
    if hi > 0 {
        law_primary(codes, hi - 1, j);
    }
}

/// A session starts at a multiple of its length, no later than its minute, and lasts beyond
/// it.
pub proof fn law_session_start(ts: i64, minutes: i64)
    requires
        clock::is_instant(ts),
        0 < minutes <= clock::WINDOW_LIMIT_MINUTES,
    ensures
        session_start(ts, minutes) as int % (minutes * 60_000_000) == 0,
        session_start(ts, minutes) <= ts < session_start(ts, minutes) + minutes * 60_000_000,
{
    let step = minutes * MINUTE_US;
    assert(MINUTE_US <= step <= clock::WINDOW_LIMIT_MINUTES * MINUTE_US) by (nonlinear_arith)
        requires
            0 < minutes <= clock::WINDOW_LIMIT_MINUTES,
            step == minutes * MINUTE_US,
    ;
    clock::law_floor(ts as int, step);
}

/// A minute of the session under way adds its range to those held, and a minute of another
/// one leaves only its own. An instant is reported at the end of a minute with a range where a
/// bar of the output window ends, unless the session has no finite lowest or highest price.
pub proof fn law_taken(m: SessionModel, row: TpoMinute, s: SessionSettings, w: int)
    requires
        m.start is Some,
        clock::is_instant(m.start->0),
        -clock::INSTANT_LIMIT_US <= row.ts_bucket <= clock::INSTANT_LIMIT_US - 60_000_000,
        0 < s.session_minutes <= clock::WINDOW_LIMIT_MINUTES,
        m.start->0 as int % (s.session_minutes * 60_000_000) == 0,
        m.dev.len() == s.outputs.len(),
        0 <= w < s.outputs.len(),
        s.outputs[w] > 0,
        row.ts_bucket as int % 1_000_000 == 0,
    ensures
        ({
            let after = taken(m, row, s);
            let end = row.ts_bucket + 60_000_000;
            let goes_on = m.start->0 <= row.ts_bucket < m.start->0 + s.session_minutes
                * 60_000_000;
            let bars = if goes_on {
                m.bars
            } else {
                Seq::empty()
            };
            let dev = if goes_on {
                m.dev[w]
            } else {
                Seq::empty()
            };
            &&& after.start is Some
            &&& goes_on <==> after.start == m.start
            &&& after.start->0 <= row.ts_bucket < after.start->0 + s.session_minutes * 60_000_000
            &&& bar_of(row) is None ==> after.bars == bars && after.dev[w] == dev
            &&& bar_of(row) matches Some(bar) ==> after.bars == bars.push(bar)
            &&& bar_of(row) is Some && end % (s.outputs[w] * 60_000_000) != 0 ==> after.dev[w]
                == dev
            &&& bar_of(row) is Some && end % (s.outputs[w] * 60_000_000) == 0 ==> after.dev[w] == if (
            has_profile(after.bars)) {
                dev.push(end as i64)
            } else {
                dev
            }
        }),
{
    law_session_start(row.ts_bucket, s.session_minutes);
    avwap::law_anchors(row.ts_bucket + 60_000_000, s.outputs[w] as int);
    let step = s.session_minutes * 60_000_000;
    assert(step > 0) by (nonlinear_arith)
        requires
            s.session_minutes > 0,
            step == s.session_minutes * 60_000_000,
    ;
    let old = m.start->0 as int;
    let new = session_start(row.ts_bucket, s.session_minutes) as int;
    if old <= row.ts_bucket < old + step {
        lemma_same_multiple(old, new, step);
    }
}

proof fn lemma_same_multiple(a: int, b: int, step: int)
    requires
        step > 0,
        a % step == 0,
        b % step == 0,
        -step < a - b < step,
    ensures
        a == b,
{
    vstd::arithmetic::div_mod::lemma_fundamental_div_mod(a, step);
    vstd::arithmetic::div_mod::lemma_fundamental_div_mod(b, step);
    let p = a / step;
    let q = b / step;
    assert(p == q) by (nonlinear_arith)
        requires
            step > 0,
            a == step * p,
            b == step * q,
            -step < a - b < step,
    ;
}

/// A profile can be made exactly of minutes whose lowest and highest prices are finite.
pub proof fn law_has_profile(bars: Seq<RangeBar>)
    requires
        forall|i: int| 0 <= i < bars.len() ==> has_keys(#[trigger] bars[i]),
    ensures
        has_profile(bars) <==> bars.len() > 0 && (forall|i: int|
            0 <= i < bars.len() ==> (#[trigger] bars[i]).low > -KEY_INFINITY && bars[i].high
                < KEY_INFINITY) && (exists|i: int|
            0 <= i < bars.len() && (#[trigger] bars[i]).low < KEY_INFINITY) && (exists|i: int|
            0 <= i < bars.len() && (#[trigger] bars[i]).high > -KEY_INFINITY),
{
    let lows = lows_of(bars);
    let highs = highs_of(bars);
    assert forall|i: int| 0 <= i < bars.len() implies order::is_key(#[trigger] lows[i])
        && order::is_key(highs[i]) by {
        assert(has_keys(bars[i]));
    }
    assert forall|i: int| 0 <= i < bars.len() implies order::is_key(#[trigger] highs[i]) by {
        assert(has_keys(bars[i]));
    }
    order::lemma_lowest(lows);
    order::lemma_highest(highs);
    if bars.len() > 0 {
        let l = choose|i: int| 0 <= i < lows.len() && lows[i] == order::lowest(lows);
        let h = choose|i: int| 0 <= i < highs.len() && highs[i] == order::highest(highs);
        assert(bars[l].low == order::lowest(lows));
        assert(bars[h].high == order::highest(highs));
        assert(has_keys(bars[l]) && has_keys(bars[h]));
        if has_profile(bars) {
            assert forall|i: int| 0 <= i < bars.len() implies (#[trigger] bars[i]).low
                > -KEY_INFINITY && bars[i].high < KEY_INFINITY by {
                assert(order::lowest(lows) <= lows[i]);
                assert(highs[i] <= order::highest(highs));
            }
        } else {
            if exists|i: int| 0 <= i < bars.len() && (#[trigger] bars[i]).low < KEY_INFINITY {
                let i = choose|i: int| 0 <= i < bars.len() && (#[trigger] bars[i]).low < KEY_INFINITY;
                assert(order::lowest(lows) <= lows[i]);
            }
            if exists|i: int| 0 <= i < bars.len() && (#[trigger] bars[i]).high > -KEY_INFINITY {
                let i = choose|i: int|
                    0 <= i < bars.len() && (#[trigger] bars[i]).high > -KEY_INFINITY;
                assert(highs[i] <= order::highest(highs));
            }
        }
    }
}

/// Whether a minute is one of the first of a session.
pub open spec fn is_early(bar: RangeBar, start: i64, ib_minutes: i64) -> bool {
    start <= bar.ts_bucket < start + ib_minutes * 60_000_000
}

/// The opening range of a session goes from the lowest low to the highest high of its first
/// minutes: none of them reaches beyond it, one of them reaches each end, and there is none
/// where the session has no such minute.
pub proof fn law_opening_range(bars: Seq<RangeBar>, start: i64, ib_minutes: i64, i: int)
    requires
        ib_minutes > 0,
        0 <= i < bars.len(),
    ensures
        is_early(bars[i], start, ib_minutes) ==> (opening_high(bars, start, ib_minutes) matches Some(
            high,
        ) && bars[i].high <= high) && (opening_low(bars, start, ib_minutes) matches Some(low) && low
            <= bars[i].low),
        opening_high(bars, start, ib_minutes) matches Some(high) ==> exists|j: int|
            0 <= j < bars.len() && is_early(#[trigger] bars[j], start, ib_minutes) && bars[j].high
                == high,
        opening_low(bars, start, ib_minutes) matches Some(low) ==> exists|j: int|
            0 <= j < bars.len() && is_early(#[trigger] bars[j], start, ib_minutes) && bars[j].low
                == low,
    decreases bars.len(),
{
    let rest = bars.drop_last();
    let n = rest.len() as int;
    assert(bars[n] == bars.last());
    if n > 0 {
        let k = if i < n {
            i
        } else {
            0
        };
        law_opening_range(rest, start, ib_minutes, k);
        assert(k < n ==> rest[k] == bars[k]);
        if opening_high(rest, start, ib_minutes) is Some {
            let j = choose|j: int|
                0 <= j < rest.len() && is_early(#[trigger] rest[j], start, ib_minutes)
                    && rest[j].high == opening_high(rest, start, ib_minutes)->0;
            assert(bars[j] == rest[j]);
        }
        if opening_low(rest, start, ib_minutes) is Some {
            let j = choose|j: int|
                0 <= j < rest.len() && is_early(#[trigger] rest[j], start, ib_minutes)
                    && rest[j].low == opening_low(rest, start, ib_minutes)->0;
            assert(bars[j] == rest[j]);
        }
    } else {
        assert(opening_high(rest, start, ib_minutes) is None);
        assert(opening_low(rest, start, ib_minutes) is None);
    }
    assert(is_early(bars[n], start, ib_minutes) == opens_session(bars.last(), start, ib_minutes));
}

/// A step tells whether a minute is of another session than the one under way, its range, and
/// in which series it is reported: those at whose bar's end it ends, where it has a range and
/// the session makes a profile.
pub proof fn law_step(
    step: TpoStep,
    before: SessionModel,
    row: TpoMinute,
    s: SessionSettings,
    w: int,
)
    requires
        is_step(step, before, row, s),
        before.start is Some,
        clock::is_instant(before.start->0),
        -clock::INSTANT_LIMIT_US <= row.ts_bucket <= clock::INSTANT_LIMIT_US - 60_000_000,
        0 < s.session_minutes <= clock::WINDOW_LIMIT_MINUTES,
        before.start->0 as int % (s.session_minutes * 60_000_000) == 0,
        before.dev.len() == s.outputs.len(),
        0 <= w < s.outputs.len(),
        s.outputs[w] > 0,
        row.ts_bucket as int % 1_000_000 == 0,
    ensures
        step.reset <==> !(before.start->0 <= row.ts_bucket < before.start->0 + s.session_minutes
            * 60_000_000),
        step.bar == bar_of(row),
        step.reported@[w] <==> bar_of(row) is Some && has_profile(taken(before, row, s).bars) && (
        row.ts_bucket + 60_000_000) % (s.outputs[w] * 60_000_000) == 0,
{
    law_taken(before, row, s, w);
    avwap::law_anchors(row.ts_bucket + 60_000_000, s.outputs[w] as int);
    let reported = step.reported@[w];
}

} // verus!
