//! Bars of longer intervals, built from minutes, from shorter bars, and from bars
//! that were stored.

use vstd::prelude::*;

use crate::clock;
use crate::clock::{floor_to, INSTANT_LIMIT_US, MINUTE_US};
use crate::history;
use crate::history::{lower_bound, Stamped};
use crate::order;
use crate::order::{lower_key, upper_key, Key};

verus! {

/// The minutes of a day.
pub const DAY_MINUTES: i64 = 1440;

/// A minute of trading.
#[derive(Clone, Copy, Debug, PartialEq, Eq)]
pub struct MinuteBar {
    /// Start of the minute.
    pub ts_bucket: i64,
    /// First price.
    pub open_price: Option<Key>,
    /// Highest price.
    pub high_price: Option<Key>,
    /// Lowest price.
    pub low_price: Option<Key>,
    /// Closing price.
    pub close_price: Option<Key>,
    /// Last seen price.
    pub last_price: Option<Key>,
}

/// A bar.
#[derive(Clone, Copy, Debug, PartialEq, Eq)]
pub struct KlineHistoryBar {
    /// Start of the bar.
    pub open_time: i64,
    /// End of the bar.
    pub close_time: i64,
    /// First price.
    pub open: Option<Key>,
    /// Highest price.
    pub high: Option<Key>,
    /// Lowest price.
    pub low: Option<Key>,
    /// Last price.
    pub close: Option<Key>,
    /// Volume in the base currency.
    pub volume_base: Key,
    /// Volume in the quote currency.
    pub volume_quote: Key,
    /// Whether the bar is over and whole.
    pub is_closed: bool,
    /// Minutes that the bar was built from.
    pub minutes_covered: i64,
    /// Minutes that the bar spans.
    pub expected_minutes: i64,
}

/// A bar whose volumes are still to be added up from its parts.
#[derive(Clone, Debug, PartialEq, Eq)]
pub struct AggregatedBar {
    /// Start of the bar.
    pub open_time: i64,
    /// End of the bar.
    pub close_time: i64,
    /// First price.
    pub open: Option<Key>,
    /// Highest price.
    pub high: Option<Key>,
    /// Lowest price.
    pub low: Option<Key>,
    /// Last price.
    pub close: Option<Key>,
    /// Whether the bar is over and whole.
    pub is_closed: bool,
    /// Minutes that the bar was built from.
    pub minutes_covered: i64,
    /// Minutes that the bar spans.
    pub expected_minutes: i64,
    /// Places of the rows that the bar was built from, in order.
    pub parts: Vec<usize>,
}

/// A bar as mathematics sees it.
#[verifier::ext_equal]
pub struct BarModel {
    /// Start of the bar.
    pub open_time: i64,
    /// First price.
    pub open: Option<Key>,
    /// Highest price.
    pub high: Option<Key>,
    /// Lowest price.
    pub low: Option<Key>,
    /// Last price.
    pub close: Option<Key>,
    /// Minutes that the bar was built from.
    pub minutes_covered: int,
    /// Places of the rows that the bar was built from, in order.
    pub parts: Seq<int>,
}

/// The prices that a row contributes to a bar, and the minutes it stands for.
#[derive(Clone, Copy, Debug, PartialEq, Eq)]
pub struct Contribution {
    /// Start of the row.
    pub ts: i64,
    /// First price.
    pub open: Option<Key>,
    /// Highest price.
    pub high: Option<Key>,
    /// Lowest price.
    pub low: Option<Key>,
    /// Last price.
    pub close: Option<Key>,
    /// Minutes that the row stands for.
    pub minutes: i64,
}

impl Stamped for KlineHistoryBar {
    open spec fn at(&self) -> i64 {
        self.open_time
    }

    fn ts(&self) -> (out: i64) {
        self.open_time
    }
}

/// The first of two figures that is present.
pub open spec fn or_key(first: Option<Key>, second: Option<Key>) -> Option<Key> {
    match first {
        Some(_) => first,
        None => second,
    }
}

fn or(first: Option<Key>, second: Option<Key>) -> (out: Option<Key>)
    ensures
        out == or_key(first, second),
{
    match first {
        Some(_) => first,
        None => second,
    }
}

/// What a minute contributes.
pub open spec fn of_minute(bar: MinuteBar) -> Contribution {
    let open = or_key(or_key(bar.open_price, bar.last_price), bar.close_price);
    Contribution {
        ts: bar.ts_bucket,
        open,
        high: or_key(or_key(or_key(bar.high_price, bar.close_price), bar.last_price), open),
        low: or_key(or_key(or_key(bar.low_price, bar.close_price), bar.last_price), open),
        close: or_key(or_key(bar.close_price, bar.last_price), bar.open_price),
        minutes: 1,
    }
}

fn minute_contribution(bar: &MinuteBar) -> (out: Contribution)
    ensures
        out == of_minute(*bar),
{
    let open: Option<Key> = or(or(bar.open_price, bar.last_price), bar.close_price);
    Contribution {
        ts: bar.ts_bucket,
        open,
        high: or(or(or(bar.high_price, bar.close_price), bar.last_price), open),
        low: or(or(or(bar.low_price, bar.close_price), bar.last_price), open),
        close: or(or(bar.close_price, bar.last_price), bar.open_price),
        minutes: 1,
    }
}

/// What a shorter bar contributes.
pub open spec fn of_record(bar: KlineHistoryBar) -> Contribution {
    Contribution {
        ts: bar.open_time,
        open: bar.open,
        high: bar.high,
        low: bar.low,
        close: bar.close,
        minutes: bar.minutes_covered,
    }
}

/// What a run of minutes contributes.
pub open spec fn of_minutes(history: Seq<MinuteBar>) -> Seq<Contribution> {
    Seq::new(history.len(), |i: int| of_minute(history[i]))
}

/// What a run of shorter bars contributes.
pub open spec fn of_records(bars: Seq<KlineHistoryBar>) -> Seq<Contribution> {
    Seq::new(bars.len(), |i: int| of_record(bars[i]))
}

/// A bar before anything contributed to it.
pub open spec fn blank(open_time: i64) -> BarModel {
    BarModel {
        open_time,
        open: None,
        high: None,
        low: None,
        close: None,
        minutes_covered: 0,
        parts: Seq::empty(),
    }
}

/// The higher of two figures, either of which may be absent.
pub open spec fn higher_of(a: Option<Key>, b: Option<Key>) -> Option<Key> {
    match (a, b) {
        (Some(x), Some(y)) => Some(order::upper(x, y)),
        (Some(_), None) => a,
        (None, _) => b,
    }
}

/// The lower of two figures, either of which may be absent.
pub open spec fn lower_of(a: Option<Key>, b: Option<Key>) -> Option<Key> {
    match (a, b) {
        (Some(x), Some(y)) => Some(order::lower(x, y)),
        (Some(_), None) => a,
        (None, _) => b,
    }
}

/// A bar after one more contribution, the one at place `i`: the first open stays, the
/// last close counts.
pub open spec fn applied(bar: BarModel, c: Contribution, i: int) -> BarModel {
    BarModel {
        open_time: bar.open_time,
        open: or_key(bar.open, c.open),
        high: higher_of(bar.high, c.high),
        low: lower_of(bar.low, c.low),
        close: or_key(c.close, bar.close),
        minutes_covered: bar.minutes_covered + c.minutes,
        parts: bar.parts.push(i),
    }
}

/// The bar that starts at `open_time`, from those of the first `hi` rows that fall
/// into it.
pub open spec fn bar_at(rows: Seq<Contribution>, step: int, open_time: i64, hi: int) -> BarModel
    decreases hi,
{
    if hi <= 0 {
        blank(open_time)
    } else {
        let rest = bar_at(rows, step, open_time, hi - 1);
        if clock::floor_spec(rows[hi - 1].ts as int, step) == open_time {
            applied(rest, rows[hi - 1], hi - 1)
        } else {
            rest
        }
    }
}

/// Whether one of the bars starts at `t`.
pub open spec fn has_open(bars: Seq<BarModel>, t: int) -> bool {
    exists|a: int| 0 <= a < bars.len() && (#[trigger] bars[a]).open_time == t
}

/// Whether `bars` are the bars of the first `hi` rows: in order, one for each interval
/// that a row falls into, each built from all the rows that do.
pub open spec fn are_bars_of(
    bars: Seq<BarModel>,
    rows: Seq<Contribution>,
    step: int,
    hi: int,
) -> bool {
    &&& forall|a: int, b: int|
        0 <= a < b < bars.len() ==> (#[trigger] bars[a]).open_time < (#[trigger] bars[b]).open_time
    &&& forall|a: int|
        0 <= a < bars.len() ==> (#[trigger] bars[a]) == bar_at(rows, step, bars[a].open_time, hi)
    &&& forall|a: int| 0 <= a < bars.len() ==> (#[trigger] bars[a]).parts.len() > 0
    &&& forall|i: int|
        0 <= i < hi ==> has_open(bars, clock::floor_spec((#[trigger] rows[i]).ts as int, step))
}

/// There is one way only to cut rows into bars.
pub proof fn law_bars_are_unique(
    a: Seq<BarModel>,
    b: Seq<BarModel>,
    rows: Seq<Contribution>,
    step: int,
    hi: int,
)
    requires
        0 <= hi <= rows.len(),
        are_bars_of(a, rows, step, hi),
        are_bars_of(b, rows, step, hi),
    ensures
        a == b,
{
    lemma_opens_match(a, b, rows, step, hi);
    lemma_opens_match(b, a, rows, step, hi);
    assert forall|i: int| 0 <= i < a.len() && i < b.len() implies a[i] == b[i] by {
        lemma_same_order(a, b, i);
    }
    if a.len() < b.len() {
        assert(has_open(a, b[a.len() as int].open_time as int));
        let j = choose|j: int|
            0 <= j < a.len() && (#[trigger] a[j]).open_time == b[a.len() as int].open_time;
        assert(b[j].open_time < b[a.len() as int].open_time);
        assert(a[j] == b[j]);
    }
    if b.len() < a.len() {
        assert(has_open(b, a[b.len() as int].open_time as int));
        let j = choose|j: int|
            0 <= j < b.len() && (#[trigger] b[j]).open_time == a[b.len() as int].open_time;
        assert(a[j].open_time < a[b.len() as int].open_time);
        assert(a[j] == b[j]);
    }
    assert(a =~= b);
}

proof fn lemma_same_order(a: Seq<BarModel>, b: Seq<BarModel>, i: int)
    requires
        0 <= i < a.len(),
        i < b.len(),
        forall|x: int, y: int|
            0 <= x < y < a.len() ==> (#[trigger] a[x]).open_time < (#[trigger] a[y]).open_time,
        forall|x: int, y: int|
            0 <= x < y < b.len() ==> (#[trigger] b[x]).open_time < (#[trigger] b[y]).open_time,
        forall|x: int| 0 <= x < a.len() ==> has_open(b, (#[trigger] a[x]).open_time as int),
        forall|x: int| 0 <= x < b.len() ==> has_open(a, (#[trigger] b[x]).open_time as int),
        forall|x: int, y: int|
            0 <= x < a.len() && 0 <= y < b.len() && (#[trigger] a[x]).open_time == (
            #[trigger] b[y]).open_time ==> a[x] == b[y],
    ensures
        a[i] == b[i],
    decreases i,
{
    assert forall|k: int| 0 <= k < i implies a[k] == b[k] by {
        lemma_same_order(a, b, k);
    }
    assert(has_open(b, a[i].open_time as int));
    let y = choose|y: int| 0 <= y < b.len() && (#[trigger] b[y]).open_time == a[i].open_time;
    assert(has_open(a, b[i].open_time as int));
    let x = choose|x: int| 0 <= x < a.len() && (#[trigger] a[x]).open_time == b[i].open_time;
    if y < i {
        assert(a[y] == b[y]);
        assert(a[y].open_time < a[i].open_time);
    }
    if x < i {
        assert(a[x] == b[x]);
        assert(b[x].open_time < b[i].open_time);
    }
    if i < y && i < x {
        assert(b[i].open_time < b[y].open_time);
        assert(a[i].open_time < a[x].open_time);
    }
}

proof fn lemma_opens_match(
    a: Seq<BarModel>,
    b: Seq<BarModel>,
    rows: Seq<Contribution>,
    step: int,
    hi: int,
)
    requires
        0 <= hi <= rows.len(),
        are_bars_of(a, rows, step, hi),
        are_bars_of(b, rows, step, hi),
    ensures
        forall|x: int| 0 <= x < a.len() ==> has_open(b, (#[trigger] a[x]).open_time as int),
        forall|x: int, y: int|
            0 <= x < a.len() && 0 <= y < b.len() && (#[trigger] a[x]).open_time == (
            #[trigger] b[y]).open_time ==> a[x] == b[y],
{
    assert forall|x: int| 0 <= x < a.len() implies has_open(
        b,
        (#[trigger] a[x]).open_time as int,
    ) by {
        let t = a[x].open_time;
        if forall|i: int|
            0 <= i < hi ==> clock::floor_spec((#[trigger] rows[i]).ts as int, step) != t {
            lemma_no_rows(rows, step, t, hi);
        } else {
            let i = choose|i: int|
                0 <= i < hi && clock::floor_spec((#[trigger] rows[i]).ts as int, step) == t;
            assert(has_open(b, clock::floor_spec(rows[i].ts as int, step)));
        }
    }
}

/// A bar that no row falls into stays blank.
proof fn lemma_no_rows(rows: Seq<Contribution>, step: int, t: i64, hi: int)
    requires
        hi <= rows.len(),
        forall|i: int|
            0 <= i < hi ==> clock::floor_spec((#[trigger] rows[i]).ts as int, step) != t,
    ensures
        bar_at(rows, step, t, hi) == blank(t),
    decreases hi,
{
    if hi > 0 {
        lemma_no_rows(rows, step, t, hi - 1);
        assert(clock::floor_spec(rows[hi - 1].ts as int, step) != t);
    }
}

/// A bar that is being built.
pub struct BarAccumulator {
    open_time: i64,
    close_time: i64,
    expected_minutes: i64,
    covered_minutes: i64,
    open: Option<Key>,
    high: Option<Key>,
    low: Option<Key>,
    close: Option<Key>,
    parts: Vec<usize>,
}

impl View for BarAccumulator {
    type V = BarModel;

    closed spec fn view(&self) -> BarModel {
        BarModel {
            open_time: self.open_time,
            open: self.open,
            high: self.high,
            low: self.low,
            close: self.close,
            minutes_covered: self.covered_minutes as int,
            parts: self.parts@.map_values(|i: usize| i as int),
        }
    }
}

impl Stamped for BarAccumulator {
    open spec fn at(&self) -> i64 {
        self@.open_time
    }

    fn ts(&self) -> (out: i64) {
        self.open_time
    }
}

/// Whether a bar is over by `current_minute_close` and every minute of it was seen.
pub open spec fn closed_by(
    close_time: int,
    current_minute_close: i64,
    minutes_covered: int,
    expected_minutes: int,
) -> bool {
    close_time <= current_minute_close && minutes_covered >= if expected_minutes < 1 {
        1
    } else {
        expected_minutes
    }
}

/// Whether a bar is over by `current_minute_close` and every minute of it was seen.
pub fn bar_is_closed(
    close_time: i64,
    current_minute_close: i64,
    minutes_covered: i64,
    expected_minutes: i64,
) -> (out: bool)
    ensures
        out == closed_by(
            close_time as int,
            current_minute_close,
            minutes_covered as int,
            expected_minutes as int,
        ),
{
    let least: i64 = if expected_minutes < 1 {
        1
    } else {
        expected_minutes
    };
    close_time <= current_minute_close && minutes_covered >= least
}

impl BarAccumulator {
    /// The span of the bar in minutes.
    pub closed spec fn spec_minutes(&self) -> i64 {
        self.expected_minutes
    }

    /// The end of the bar follows from its start and its span.
    pub closed spec fn well_formed(&self) -> bool {
        self.close_time == self.open_time + self.expected_minutes * MINUTE_US
    }

    /// A bar before anything contributed to it.
    pub fn new(open_time: i64, interval_minutes: i64) -> (out: Self)
        requires
            0 < interval_minutes <= clock::WINDOW_LIMIT_MINUTES,
            -9_222_000_000_000_000_000 <= open_time <= clock::INSTANT_LIMIT_US,
        ensures
            out@ == blank(open_time),
            out.spec_minutes() == interval_minutes,
            out.well_formed(),
    {
        let out = BarAccumulator {
            open_time,
            close_time: open_time + interval_minutes * MINUTE_US,
            expected_minutes: interval_minutes,
            covered_minutes: 0,
            open: None,
            high: None,
            low: None,
            close: None,
            parts: Vec::new(),
        };
        proof {
            assert(out@.parts =~= Seq::empty());
        }
        out
    }

    /// Takes in the contribution at place `i`.
    pub fn apply(&mut self, c: &Contribution, i: usize)
        requires
            i64::MIN <= old(self)@.minutes_covered + c.minutes <= i64::MAX,
        ensures
            final(self)@ == applied(old(self)@, *c, i as int),
            final(self).spec_minutes() == old(self).spec_minutes(),
            final(self).well_formed() == old(self).well_formed(),
    {
        self.open = or(self.open, c.open);
        self.high = match (self.high, c.high) {
            (Some(a), Some(b)) => Some(upper_key(a, b)),
            (Some(a), None) => Some(a),
            (None, b) => b,
        };
        self.low = match (self.low, c.low) {
            (Some(a), Some(b)) => Some(lower_key(a, b)),
            (Some(a), None) => Some(a),
            (None, b) => b,
        };
        self.close = or(c.close, self.close);
        self.covered_minutes = self.covered_minutes + c.minutes;
        self.parts.push(i);
        proof {
            assert(self@.parts =~= old(self)@.parts.push(i as int));
        }
    }

    /// The bar as it stands at `current_minute_close`.
    pub fn to_bar(self, current_minute_close: i64) -> (out: AggregatedBar)
        requires
            self.well_formed(),
        ensures
            is_finished(out, self@, self.spec_minutes() as int, current_minute_close),
    {
        AggregatedBar {
            open_time: self.open_time,
            close_time: self.close_time,
            open: self.open,
            high: self.high,
            low: self.low,
            close: self.close,
            is_closed: bar_is_closed(
                self.close_time,
                current_minute_close,
                self.covered_minutes,
                self.expected_minutes,
            ),
            minutes_covered: self.covered_minutes,
            expected_minutes: self.expected_minutes,
            parts: self.parts,
        }
    }
}

/// Whether a bar is the given one as it stands at `current_minute_close`.
pub open spec fn is_finished(
    bar: AggregatedBar,
    model: BarModel,
    interval_minutes: int,
    current_minute_close: i64,
) -> bool {
    &&& bar.open_time == model.open_time
    &&& bar.close_time == model.open_time + interval_minutes * MINUTE_US
    &&& bar.open == model.open
    &&& bar.high == model.high
    &&& bar.low == model.low
    &&& bar.close == model.close
    &&& bar.minutes_covered == model.minutes_covered
    &&& bar.expected_minutes == interval_minutes
    &&& bar.is_closed == closed_by(
        bar.close_time as int,
        current_minute_close,
        model.minutes_covered,
        interval_minutes,
    )
    &&& bar.parts@.map_values(|i: usize| i as int) == model.parts
}

/// The models of bars that are being built.
pub open spec fn models(bars: Seq<BarAccumulator>) -> Seq<BarModel> {
    Seq::new(bars.len(), |i: int| bars[i]@)
}

/// The size of a number.
pub open spec fn size_of_whole(n: int) -> int {
    if n < 0 {
        -n
    } else {
        n
    }
}

/// The minutes that the first `hi` rows stand for, each counted by its size.
pub open spec fn minutes_upto(rows: Seq<Contribution>, hi: int) -> int
    decreases hi,
{
    if hi <= 0 {
        0
    } else {
        minutes_upto(rows, hi - 1) + size_of_whole(rows[hi - 1].minutes as int)
    }
}

/// Whether the minutes of rows can be counted.
pub open spec fn can_be_counted(rows: Seq<Contribution>) -> bool {
    minutes_upto(rows, rows.len() as int) <= i64::MAX
}

/// The minutes of a bar are no more than its rows stand for.
proof fn lemma_minutes_bounded(rows: Seq<Contribution>, step: int, t: i64, hi: int)
    requires
        0 <= hi <= rows.len(),
    ensures
        size_of_whole(bar_at(rows, step, t, hi).minutes_covered) <= minutes_upto(rows, hi),
    decreases hi,
{
    if hi > 0 {
        lemma_minutes_bounded(rows, step, t, hi - 1);
    }
}

proof fn lemma_minutes_grow(rows: Seq<Contribution>, lo: int, hi: int)
    requires
        lo <= hi,
    ensures
        minutes_upto(rows, lo) <= minutes_upto(rows, hi),
    decreases hi - lo,
{
    if lo < hi {
        lemma_minutes_grow(rows, lo, hi - 1);
    }
}

proof fn lemma_minutes_count(history: Seq<MinuteBar>, hi: int)
    requires
        0 <= hi <= history.len(),
    ensures
        minutes_upto(of_minutes(history), hi) == hi,
    decreases hi,
{
    if hi > 0 {
        lemma_minutes_count(history, hi - 1);
    }
}

/// Cuts rows into bars.
fn cut_into_bars(rows: &Vec<Contribution>, interval_minutes: i64) -> (out: Vec<BarAccumulator>)
    requires
        0 < interval_minutes <= clock::WINDOW_LIMIT_MINUTES,
        forall|i: int| 0 <= i < rows@.len() ==> clock::is_instant((#[trigger] rows@[i]).ts),
        can_be_counted(rows@),
    ensures
        are_bars_of(models(out@), rows@, interval_minutes * MINUTE_US, rows@.len() as int),
        forall|a: int|
            0 <= a < out@.len() ==> (#[trigger] out@[a]).spec_minutes() == interval_minutes
                && out@[a].well_formed(),
{
    let step: i64 = interval_minutes * MINUTE_US;
    let mut out: Vec<BarAccumulator> = Vec::new();
    let mut i: usize = 0;
    while i < rows.len()
        invariant
            i <= rows@.len(),
            0 < interval_minutes <= clock::WINDOW_LIMIT_MINUTES,
            step == interval_minutes * MINUTE_US,
            forall|j: int| 0 <= j < rows@.len() ==> clock::is_instant((#[trigger] rows@[j]).ts),
            can_be_counted(rows@),
            are_bars_of(models(out@), rows@, step as int, i as int),
            forall|a: int|
                0 <= a < out@.len() ==> (#[trigger] out@[a]).spec_minutes() == interval_minutes
                    && out@[a].well_formed(),
        decreases rows@.len() - i,
    {
        let row: Contribution = rows[i];
        let t: i64 = floor_to(row.ts, step);
        let ghost before = models(out@);
        let at: usize = lower_bound(&out, t);
        proof {
            let ts = history::stamps(out@);
            assert forall|a: int, b: int| 0 <= a <= b < ts.len() implies ts[a] <= ts[b] by {
                if a < b {
                    assert(before[a].open_time < before[b].open_time);
                }
            }
            history::lemma_first_at_or_after(ts, t);
            lemma_minutes_bounded(rows@, step as int, t, i as int);
            lemma_minutes_grow(rows@, i + 1, rows@.len() as int);
            assert forall|a: int| 0 <= a < at implies (#[trigger] before[a]).open_time < t by {
                assert(ts[a] < t);
            }
            assert forall|a: int| at <= a < before.len() implies (
            #[trigger] before[a]).open_time >= t by {
                assert(ts[a] >= t);
            }
        }
        let known: bool = at < out.len() && out[at].ts() == t;
        if !known {
            let fresh: BarAccumulator = BarAccumulator::new(t, interval_minutes);
            let ghost kept = out@;
            out.insert(at, fresh);
            proof {
                assert(out@ == kept.insert(at as int, fresh));
                assert(models(out@) =~= before.insert(at as int, blank(t)));
            }
        }
        let ghost held = out@;
        let ghost between = models(out@);
        proof {
            lemma_room_made(before, between, rows@, step as int, i as int, t, at as int, known);
        }
        out[at].apply(&row, i);
        proof {
            assert(out@ =~= held.update(at as int, out@[at as int]));
            assert(models(out@) =~= between.update(
                at as int,
                applied(between[at as int], rows@[i as int], i as int),
            ));
            lemma_row_taken(between, models(out@), rows@, step as int, i as int, t, at as int);
        }
        i += 1;
    }
    out
}

/// After room was made for the bar of the next row, the bars are as they should be but
/// for that row.
#[verifier::rlimit(50)]
#[verifier::spinoff_prover]
proof fn lemma_room_made(
    before: Seq<BarModel>,
    between: Seq<BarModel>,
    rows: Seq<Contribution>,
    step: int,
    hi: int,
    t: i64,
    at: int,
    known: bool,
)
    requires
        0 <= hi < rows.len(),
        are_bars_of(before, rows, step, hi),
        0 <= at <= before.len(),
        forall|a: int| 0 <= a < at ==> (#[trigger] before[a]).open_time < t,
        forall|a: int| at <= a < before.len() ==> (#[trigger] before[a]).open_time >= t,
        known ==> at < before.len() && before[at].open_time == t,
        !known && at < before.len() ==> before[at].open_time != t,
        known ==> between == before,
        !known ==> between == before.insert(at, blank(t)),
    ensures
        at < between.len(),
        between[at].open_time == t,
        between[at] == bar_at(rows, step, t, hi),
        forall|a: int, b: int|
            0 <= a < b < between.len() ==> (#[trigger] between[a]).open_time < (
            #[trigger] between[b]).open_time,
        forall|a: int|
            0 <= a < between.len() ==> (#[trigger] between[a]) == bar_at(
                rows,
                step,
                between[a].open_time,
                hi,
            ),
        forall|a: int|
            0 <= a < between.len() && a != at ==> (#[trigger] between[a]).parts.len() > 0,
        forall|i: int|
            0 <= i < hi ==> has_open(
                between,
                clock::floor_spec((#[trigger] rows[i]).ts as int, step),
            ),
{
    if !known {
        assert forall|i: int| 0 <= i < hi implies clock::floor_spec(
            (#[trigger] rows[i]).ts as int,
            step,
        ) != t by {
            let f = clock::floor_spec(rows[i].ts as int, step);
            assert(has_open(before, f));
            let a = choose|a: int| 0 <= a < before.len() && (#[trigger] before[a]).open_time == f;
            if f == t {
                if a > at {
                    assert(before[at].open_time < before[a].open_time);
                }
            }
        }
        lemma_no_rows(rows, step, t, hi);
        assert forall|a: int| 0 <= a < between.len() implies #[trigger] between[a] == if a < at {
            before[a]
        } else if a == at {
            blank(t)
        } else {
            before[a - 1]
        } by {}
        assert forall|a: int, b: int| 0 <= a < b < between.len() implies (
        #[trigger] between[a]).open_time < (#[trigger] between[b]).open_time by {
            if a < at && b > at {
                assert(before[a].open_time < before[b - 1].open_time);
            } else if a < at && b < at {
                assert(before[a].open_time < before[b].open_time);
            } else if a > at {
                assert(before[a - 1].open_time < before[b - 1].open_time);
            } else if a == at {
                assert(before[b - 1].open_time >= t);
                if b - 1 > at {
                    assert(before[at].open_time < before[b - 1].open_time);
                }
            }
        }
        assert forall|i: int| 0 <= i < hi implies has_open(
            between,
            clock::floor_spec((#[trigger] rows[i]).ts as int, step),
        ) by {
            let f = clock::floor_spec(rows[i].ts as int, step);
            assert(has_open(before, f));
            let a = choose|a: int| 0 <= a < before.len() && (#[trigger] before[a]).open_time == f;
            if a < at {
                assert(between[a].open_time == f);
            } else {
                assert(between[a + 1].open_time == f);
            }
        }
    }
}

/// After the next row was taken in, the bars are as they should be.
proof fn lemma_row_taken(
    between: Seq<BarModel>,
    after: Seq<BarModel>,
    rows: Seq<Contribution>,
    step: int,
    hi: int,
    t: i64,
    at: int,
)
    requires
        0 <= hi < rows.len(),
        0 <= at < between.len(),
        clock::floor_spec(rows[hi].ts as int, step) == t,
        between[at].open_time == t,
        forall|a: int, b: int|
            0 <= a < b < between.len() ==> (#[trigger] between[a]).open_time < (
            #[trigger] between[b]).open_time,
        forall|a: int|
            0 <= a < between.len() ==> (#[trigger] between[a]) == bar_at(
                rows,
                step,
                between[a].open_time,
                hi,
            ),
        forall|a: int|
            0 <= a < between.len() && a != at ==> (#[trigger] between[a]).parts.len() > 0,
        forall|i: int|
            0 <= i < hi ==> has_open(
                between,
                clock::floor_spec((#[trigger] rows[i]).ts as int, step),
            ),
        after == between.update(at, applied(between[at], rows[hi], hi)),
    ensures
        are_bars_of(after, rows, step, hi + 1),
{
    assert forall|a: int| 0 <= a < after.len() implies (#[trigger] after[a]) == bar_at(
        rows,
        step,
        after[a].open_time,
        hi + 1,
    ) by {
        if a == at {
            assert(between[at] == bar_at(rows, step, t, hi));
        } else {
            assert(between[a].open_time != t) by {
                if a < at {
                    assert(between[a].open_time < between[at].open_time);
                } else {
                    assert(between[at].open_time < between[a].open_time);
                }
            }
        }
    }
    assert forall|a: int, b: int| 0 <= a < b < after.len() implies (#[trigger] after[a]).open_time
        < (#[trigger] after[b]).open_time by {
        assert(between[a].open_time < between[b].open_time);
    }
    assert forall|i: int| 0 <= i < hi + 1 implies has_open(
        after,
        clock::floor_spec((#[trigger] rows[i]).ts as int, step),
    ) by {
        if i == hi {
            assert(after[at].open_time == t);
        } else {
            let f = clock::floor_spec(rows[i].ts as int, step);
            assert(has_open(between, f));
            let a = choose|a: int|
                0 <= a < between.len() && (#[trigger] between[a]).open_time == f;
            assert(after[a].open_time == f);
        }
    }
}

/// Whether `out` are the last `limit` of the bars of `rows`, as they stand at
/// `current_minute_close`.
pub open spec fn are_last_bars(
    out: Seq<AggregatedBar>,
    rows: Seq<Contribution>,
    interval_minutes: int,
    limit: int,
    current_minute_close: i64,
) -> bool {
    exists|all: Seq<BarModel>|
        {
            &&& #[trigger] are_bars_of(
                all,
                rows,
                interval_minutes * MINUTE_US,
                rows.len() as int,
            )
            &&& out.len() == if all.len() < limit {
                all.len() as int
            } else {
                limit
            }
            &&& forall|i: int|
                0 <= i < out.len() ==> is_finished(
                    #[trigger] out[i],
                    all[all.len() - out.len() + i],
                    interval_minutes,
                    current_minute_close,
                )
        }
}

/// The last `limit` bars of rows.
fn last_bars(
    rows: &Vec<Contribution>,
    interval_minutes: i64,
    limit: usize,
    current_minute_close: i64,
) -> (out: Vec<AggregatedBar>)
    requires
        0 < interval_minutes <= clock::WINDOW_LIMIT_MINUTES,
        forall|i: int| 0 <= i < rows@.len() ==> clock::is_instant((#[trigger] rows@[i]).ts),
        can_be_counted(rows@),
    ensures
        are_last_bars(
            out@,
            rows@,
            interval_minutes as int,
            limit as int,
            current_minute_close,
        ),
{
    let mut bars: Vec<BarAccumulator> = cut_into_bars(rows, interval_minutes);
    let ghost all = models(bars@);
    if bars.len() > limit {
        let skip: usize = bars.len() - limit;
        bars = bars.split_off(skip);
    }
    let ghost kept = bars@;
    let ghost skipped = all.len() - kept.len();
    proof {
        assert forall|i: int| 0 <= i < kept.len() implies kept[i]@ == all[skipped + i] by {}
    }
    let mut out: Vec<AggregatedBar> = Vec::new();
    while bars.len() > 0
        invariant
            out@.len() + bars@.len() == kept.len(),
            bars@ =~= kept.subrange(out@.len() as int, kept.len() as int),
            forall|a: int|
                0 <= a < kept.len() ==> (#[trigger] kept[a]).spec_minutes() == interval_minutes
                    && kept[a].well_formed(),
            forall|i: int|
                0 <= i < out@.len() ==> is_finished(
                    #[trigger] out@[i],
                    kept[i]@,
                    interval_minutes as int,
                    current_minute_close,
                ),
        decreases bars@.len(),
    {
        let ghost k = out@.len() as int;
        let bar: BarAccumulator = bars.remove(0);
        assert(bar == kept[k]);
        out.push(bar.to_bar(current_minute_close));
    }
    proof {
        assert forall|i: int| 0 <= i < out@.len() implies is_finished(
            #[trigger] out@[i],
            all[all.len() - out@.len() + i],
            interval_minutes as int,
            current_minute_close,
        ) by {
            assert(kept[i]@ == all[skipped + i]);
        }
        assert(are_bars_of(
            all,
            rows@,
            interval_minutes * MINUTE_US,
            rows@.len() as int,
        ));
    }
    out
}

/// The minutes that the bars starting at the given instants cover of the first `hi` rows.
spec fn covered_by(rows: Seq<Contribution>, step: int, opens: Seq<i64>, hi: int) -> int
    decreases opens.len(),
{
    if opens.len() == 0 {
        0
    } else {
        covered_by(rows, step, opens.drop_last(), hi) + bar_at(
            rows,
            step,
            opens.last(),
            hi,
        ).minutes_covered
    }
}

/// One more row adds its minutes to the one bar that it falls into.
proof fn lemma_one_more_covered(rows: Seq<Contribution>, step: int, opens: Seq<i64>, hi: int)
    requires
        0 < hi <= rows.len(),
        forall|a: int, b: int| 0 <= a < b < opens.len() ==> opens[a] < opens[b],
    ensures
        covered_by(rows, step, opens, hi) == covered_by(rows, step, opens, hi - 1) + if exists|
            a: int,
        |
            0 <= a < opens.len() && #[trigger] opens[a] == clock::floor_spec(
                rows[hi - 1].ts as int,
                step,
            ) {
            rows[hi - 1].minutes as int
        } else {
            0
        },
    decreases opens.len(),
{
    if opens.len() > 0 {
        let rest = opens.drop_last();
        let f = clock::floor_spec(rows[hi - 1].ts as int, step);
        lemma_one_more_covered(rows, step, rest, hi);
        if opens.last() == f {
            assert(opens[opens.len() - 1] == f);
            assert forall|a: int| 0 <= a < rest.len() implies #[trigger] rest[a] != f by {
                assert(opens[a] < opens[opens.len() - 1]);
            }
        } else if exists|a: int| 0 <= a < opens.len() && #[trigger] opens[a] == f {
            let a = choose|a: int| 0 <= a < opens.len() && #[trigger] opens[a] == f;
            assert(rest[a] == f);
        } else {
            assert forall|a: int| 0 <= a < rest.len() implies #[trigger] rest[a] != f by {
                assert(opens[a] != f);
            }
        }
    }
}

/// Bars in order that every row falls into cover as many minutes as the rows stand for.
proof fn lemma_all_covered(rows: Seq<Contribution>, step: int, opens: Seq<i64>, hi: int)
    requires
        0 <= hi <= rows.len(),
        forall|i: int| 0 <= i < hi ==> (#[trigger] rows[i]).minutes == 1,
        forall|a: int, b: int| 0 <= a < b < opens.len() ==> opens[a] < opens[b],
        forall|i: int|
            0 <= i < hi ==> exists|a: int|
                0 <= a < opens.len() && #[trigger] opens[a] == clock::floor_spec(
                    (#[trigger] rows[i]).ts as int,
                    step,
                ),
    ensures
        covered_by(rows, step, opens, hi) == hi,
    decreases hi,
{
    if hi > 0 {
        lemma_all_covered(rows, step, opens, hi - 1);
        lemma_one_more_covered(rows, step, opens, hi);
        assert(rows[hi - 1].minutes == 1);
    } else {
        lemma_nothing_covered(rows, step, opens);
    }
}

proof fn lemma_nothing_covered(rows: Seq<Contribution>, step: int, opens: Seq<i64>)
    ensures
        covered_by(rows, step, opens, 0) == 0,
    decreases opens.len(),
{
    if opens.len() > 0 {
        lemma_nothing_covered(rows, step, opens.drop_last());
    }
}

/// The minutes that bars cover, all together.
pub open spec fn minutes_in(bars: Seq<AggregatedBar>) -> int
    decreases bars.len(),
{
    if bars.len() == 0 {
        0
    } else {
        minutes_in(bars.drop_last()) + bars.last().minutes_covered
    }
}

proof fn lemma_minutes_in(
    bars: Seq<AggregatedBar>,
    all: Seq<BarModel>,
    rows: Seq<Contribution>,
    step: int,
    opens: Seq<i64>,
)
    requires
        bars.len() == all.len(),
        opens.len() == all.len(),
        forall|a: int| 0 <= a < all.len() ==> opens[a] == (#[trigger] all[a]).open_time,
        forall|a: int|
            0 <= a < all.len() ==> (#[trigger] all[a]) == bar_at(
                rows,
                step,
                all[a].open_time,
                rows.len() as int,
            ),
        forall|a: int|
            0 <= a < all.len() ==> (#[trigger] bars[a]).minutes_covered == all[a].minutes_covered,
    ensures
        minutes_in(bars) == covered_by(rows, step, opens, rows.len() as int),
    decreases bars.len(),
{
    if bars.len() > 0 {
        let m = bars.len() - 1;
        assert(bars.last() == bars[m]);
        assert(opens.last() == all[m].open_time);
        assert(bars.last().minutes_covered == bar_at(
            rows,
            step,
            opens.last(),
            rows.len() as int,
        ).minutes_covered);
        assert forall|a: int| 0 <= a < m implies (#[trigger] bars.drop_last()[a]).minutes_covered
            == all.drop_last()[a].minutes_covered by {
            assert(bars[a].minutes_covered == all[a].minutes_covered);
        }
        lemma_minutes_in(bars.drop_last(), all.drop_last(), rows, step, opens.drop_last());
    }
}

/// Bars of an interval of more than a minute start in order, each at a multiple of the
/// interval, and end an interval later. They are over once they end by
/// `current_minute_close` with every minute seen. Where the limit leaves none out, as one
/// of no fewer bars than there are minutes does, their minutes are all those of the
/// history, each counted once.
pub proof fn law_interval_bars(
    bars: Seq<AggregatedBar>,
    history: Seq<MinuteBar>,
    interval_minutes: i64,
    limit: usize,
    current_minute_close: i64,
)
    requires
        interval_minutes > 1,
        are_last_bars(
            bars,
            of_minutes(history),
            interval_minutes as int,
            limit as int,
            current_minute_close,
        ),
    ensures
        forall|a: int, b: int|
            0 <= a < b < bars.len() ==> (#[trigger] bars[a]).open_time < (
            #[trigger] bars[b]).open_time,
        forall|a: int|
            0 <= a < bars.len() ==> {
                let bar = #[trigger] bars[a];
                &&& bar.open_time as int % (interval_minutes * MINUTE_US) == 0
                &&& bar.close_time == bar.open_time + interval_minutes * MINUTE_US
                &&& bar.is_closed <==> bar.close_time <= current_minute_close
                    && bar.minutes_covered >= interval_minutes
            },
        forall|a: int|
            0 <= a < bars.len() ==> (#[trigger] bars[a]).minutes_covered == bars[a].parts@.len()
                && bars[a].parts@.len() > 0,
        bars.len() <= limit,
        bars.len() < limit || history.len() <= limit ==> minutes_in(bars) == history.len(),
{
    let rows = of_minutes(history);
    let step = interval_minutes * MINUTE_US;
    let n = rows.len() as int;
    let all = choose|all: Seq<BarModel>|
        {
            &&& #[trigger] are_bars_of(all, rows, step, n)
            &&& bars.len() == if all.len() < limit {
                all.len() as int
            } else {
                limit as int
            }
            &&& forall|i: int|
                0 <= i < bars.len() ==> is_finished(
                    #[trigger] bars[i],
                    all[all.len() - bars.len() + i],
                    interval_minutes as int,
                    current_minute_close,
                )
        };
    let skipped = all.len() - bars.len();
    assert forall|a: int, b: int| 0 <= a < b < bars.len() implies (#[trigger] bars[a]).open_time
        < (#[trigger] bars[b]).open_time by {
        assert(all[skipped + a].open_time < all[skipped + b].open_time);
    }
    assert forall|a: int| 0 <= a < bars.len() implies (#[trigger] bars[a]).open_time as int % step
        == 0 by {
        lemma_open_is_multiple(rows, step, all[skipped + a].open_time, n);
        assert(all[skipped + a].parts.len() > 0);
    }
    assert forall|a: int| 0 <= a < bars.len() implies (#[trigger] bars[a]).minutes_covered
        == bars[a].parts@.len() && bars[a].parts@.len() > 0 by {
        let model = all[skipped + a];
        assert(is_finished(bars[a], model, interval_minutes as int, current_minute_close));
        lemma_minutes_are_parts(rows, step, model.open_time, n);
        assert(model.parts.len() > 0);
        assert(bars[a].parts@.map_values(|i: usize| i as int).len() == bars[a].parts@.len());
    }
    let opens = Seq::new(all.len(), |a: int| all[a].open_time);
    assert forall|i: int| 0 <= i < n implies exists|a: int|
        0 <= a < opens.len() && #[trigger] opens[a] == clock::floor_spec(
            (#[trigger] rows[i]).ts as int,
            step,
        ) by {
        let f = clock::floor_spec(rows[i].ts as int, step);
        assert(has_open(all, f));
        let a = choose|a: int| 0 <= a < all.len() && (#[trigger] all[a]).open_time == f;
        assert(opens[a] == f);
    }
    lemma_all_covered(rows, step, opens, n);
    assert forall|a: int| 0 <= a < opens.len() implies bar_at(
        rows,
        step,
        #[trigger] opens[a],
        n,
    ).minutes_covered >= 1 by {
        assert(all[a] == bar_at(rows, step, all[a].open_time, n));
        lemma_minutes_are_parts(rows, step, opens[a], n);
    }
    lemma_covered_bounds(rows, step, opens, n);
    if bars.len() < limit || history.len() <= limit {
        lemma_minutes_in(bars, all, rows, step, opens);
    }
}

/// A bar of minutes covers as many minutes as it has parts.
proof fn lemma_minutes_are_parts(rows: Seq<Contribution>, step: int, t: i64, hi: int)
    requires
        0 <= hi <= rows.len(),
        forall|i: int| 0 <= i < hi ==> (#[trigger] rows[i]).minutes == 1,
    ensures
        bar_at(rows, step, t, hi).minutes_covered == bar_at(rows, step, t, hi).parts.len(),
    decreases hi,
{
    if hi > 0 {
        lemma_minutes_are_parts(rows, step, t, hi - 1);
        assert(rows[hi - 1].minutes == 1);
    }
}

/// Bars that each cover a minute are no more than the minutes they cover.
proof fn lemma_covered_bounds(rows: Seq<Contribution>, step: int, opens: Seq<i64>, hi: int)
    requires
        forall|a: int|
            0 <= a < opens.len() ==> bar_at(rows, step, #[trigger] opens[a], hi).minutes_covered
                >= 1,
    ensures
        opens.len() <= covered_by(rows, step, opens, hi),
    decreases opens.len(),
{
    if opens.len() > 0 {
        let rest = opens.drop_last();
        assert forall|a: int| 0 <= a < rest.len() implies bar_at(
            rows,
            step,
            #[trigger] rest[a],
            hi,
        ).minutes_covered >= 1 by {
            assert(rest[a] == opens[a]);
        }
        lemma_covered_bounds(rows, step, rest, hi);
        assert(bar_at(rows, step, opens[opens.len() - 1], hi).minutes_covered >= 1);
    }
}

/// A bar that a row falls into starts at a multiple of the interval.
proof fn lemma_open_is_multiple(rows: Seq<Contribution>, step: int, t: i64, hi: int)
    requires
        0 <= hi <= rows.len(),
        step > 0,
        bar_at(rows, step, t, hi).parts.len() > 0,
    ensures
        t as int % step == 0,
    decreases hi,
{
    if hi > 0 {
        if clock::floor_spec(rows[hi - 1].ts as int, step) == t {
            clock::law_floor(rows[hi - 1].ts as int, step);
        } else {
            lemma_open_is_multiple(rows, step, t, hi - 1);
        }
    }
}

/// A limit keeps the last bars: those under a limit end those under a higher one.
pub proof fn law_limit_keeps_last_bars(
    few: Seq<AggregatedBar>,
    many: Seq<AggregatedBar>,
    history: Seq<MinuteBar>,
    interval_minutes: i64,
    limit: usize,
    higher: usize,
    current_minute_close: i64,
)
    requires
        interval_minutes > 1,
        limit <= higher,
        are_last_bars(
            few,
            of_minutes(history),
            interval_minutes as int,
            limit as int,
            current_minute_close,
        ),
        are_last_bars(
            many,
            of_minutes(history),
            interval_minutes as int,
            higher as int,
            current_minute_close,
        ),
    ensures
        few.len() == if many.len() < limit {
            many.len() as int
        } else {
            limit as int
        },
        forall|i: int|
            0 <= i < few.len() ==> same_bar(
                #[trigger] few[i],
                many[many.len() - few.len() + i],
            ),
{
    let rows = of_minutes(history);
    let step = interval_minutes * MINUTE_US;
    let n = rows.len() as int;
    let a = choose|all: Seq<BarModel>|
        {
            &&& #[trigger] are_bars_of(all, rows, step, n)
            &&& few.len() == if all.len() < limit {
                all.len() as int
            } else {
                limit as int
            }
            &&& forall|i: int|
                0 <= i < few.len() ==> is_finished(
                    #[trigger] few[i],
                    all[all.len() - few.len() + i],
                    interval_minutes as int,
                    current_minute_close,
                )
        };
    let b = choose|all: Seq<BarModel>|
        {
            &&& #[trigger] are_bars_of(all, rows, step, n)
            &&& many.len() == if all.len() < higher {
                all.len() as int
            } else {
                higher as int
            }
            &&& forall|i: int|
                0 <= i < many.len() ==> is_finished(
                    #[trigger] many[i],
                    all[all.len() - many.len() + i],
                    interval_minutes as int,
                    current_minute_close,
                )
        };
    law_bars_are_unique(a, b, rows, step, n);
    assert forall|i: int| 0 <= i < few.len() implies same_bar(
        #[trigger] few[i],
        many[many.len() - few.len() + i],
    ) by {
        let x = few[i];
        let y = many[many.len() - few.len() + i];
        let model = a[a.len() - few.len() + i];
        assert(is_finished(y, model, interval_minutes as int, current_minute_close));
        let px = x.parts@.map_values(|k: usize| k as int);
        let py = y.parts@.map_values(|k: usize| k as int);
        assert(px == py);
        assert forall|k: int| 0 <= k < x.parts@.len() implies x.parts@[k] == y.parts@[k] by {
            assert(px[k] == py[k]);
        }
        assert(x.parts@ =~= y.parts@);
    }
}

/// Whether two bars agree in everything.
pub open spec fn same_bar(a: AggregatedBar, b: AggregatedBar) -> bool {
    &&& a.open_time == b.open_time
    &&& a.close_time == b.close_time
    &&& a.open == b.open
    &&& a.high == b.high
    &&& a.low == b.low
    &&& a.close == b.close
    &&& a.is_closed == b.is_closed
    &&& a.minutes_covered == b.minutes_covered
    &&& a.expected_minutes == b.expected_minutes
    &&& a.parts@ == b.parts@
}

/// Minutes as bars of one minute, from place `from` on.
pub open spec fn is_minute_bar(bar: AggregatedBar, c: Contribution, i: int) -> bool {
    &&& bar.open_time == c.ts
    &&& bar.close_time == c.ts + MINUTE_US
    &&& bar.open == c.open
    &&& bar.high == c.high
    &&& bar.low == c.low
    &&& bar.close == c.close
    &&& bar.is_closed
    &&& bar.minutes_covered == 1
    &&& bar.expected_minutes == 1
    &&& bar.parts@ == seq![i as usize]
}

/// A minute as a bar, always over and whole.
fn minute_bar_to_record(c: &Contribution, i: usize) -> (out: AggregatedBar)
    requires
        clock::is_instant(c.ts),
    ensures
        is_minute_bar(out, *c, i as int),
{
    let mut parts: Vec<usize> = Vec::new();
    parts.push(i);
    assert(parts@ =~= seq![i]);
    AggregatedBar {
        open_time: c.ts,
        close_time: c.ts + MINUTE_US,
        open: c.open,
        high: c.high,
        low: c.low,
        close: c.close,
        is_closed: true,
        minutes_covered: 1,
        expected_minutes: 1,
        parts,
    }
}

/// Whether `bars` are the last `limit` bars of an interval, built from minutes. None for
/// an interval or a limit of nothing. Bars of one minute are the minutes themselves.
pub open spec fn are_interval_bars(
    bars: Seq<AggregatedBar>,
    history: Seq<MinuteBar>,
    interval_minutes: i64,
    limit: int,
    current_minute_close: i64,
) -> bool {
    &&& interval_minutes <= 0 || limit == 0 || history.len() == 0 ==> bars.len() == 0
    &&& interval_minutes == 1 ==> {
        &&& bars.len() == if history.len() < limit {
            history.len() as int
        } else {
            limit
        }
        &&& forall|i: int|
            0 <= i < bars.len() ==> is_minute_bar(
                #[trigger] bars[i],
                of_minute(history[history.len() - bars.len() + i]),
                history.len() - bars.len() + i,
            )
    }
    &&& interval_minutes > 1 && limit > 0 ==> are_last_bars(
        bars,
        of_minutes(history),
        interval_minutes as int,
        limit,
        current_minute_close,
    )
}

/// The last `limit` bars of an interval, built from minutes. None for an interval or a
/// limit of nothing. Bars of one minute are the minutes themselves.
pub fn build_interval_bar_records(
    history: &[MinuteBar],
    interval_minutes: i64,
    limit: usize,
    current_minute_close: i64,
) -> (out: Vec<AggregatedBar>)
    requires
        interval_minutes <= clock::WINDOW_LIMIT_MINUTES,
        history@.len() <= i64::MAX,
        forall|i: int|
            0 <= i < history@.len() ==> clock::is_instant(#[trigger] history@[i].ts_bucket),
    ensures
        are_interval_bars(
            out@,
            history@,
            interval_minutes,
            limit as int,
            current_minute_close,
        ),
{
    let mut out: Vec<AggregatedBar> = Vec::new();
    let n: usize = history.len();
    if interval_minutes <= 0 || limit == 0 || n == 0 {
        proof {
            if interval_minutes > 1 && limit > 0 {
                let none = Seq::<BarModel>::empty();
                assert(are_bars_of(
                    none,
                    of_minutes(history@),
                    interval_minutes * MINUTE_US,
                    0,
                ));
                assert(out@.len() == none.len());
            }
        }
        return out;
    }
    if interval_minutes == 1 {
        let first: usize = if n < limit {
            0
        } else {
            n - limit
        };
        let mut i: usize = first;
        while i < n
            invariant
                first <= i <= n,
                n == history@.len(),
                forall|j: int| 0 <= j < n ==> clock::is_instant(#[trigger] history@[j].ts_bucket),
                out@.len() == i - first,
                forall|j: int|
                    0 <= j < out@.len() ==> is_minute_bar(
                        #[trigger] out@[j],
                        of_minute(history@[first + j]),
                        first + j,
                    ),
            decreases n - i,
        {
            assert(clock::is_instant(history@[i as int].ts_bucket));
            out.push(minute_bar_to_record(&minute_contribution(&history[i]), i));
            i += 1;
        }
        return out;
    }
    let mut rows: Vec<Contribution> = Vec::new();
    let mut i: usize = 0;
    while i < n
        invariant
            i <= n,
            n == history@.len(),
            rows@ =~= of_minutes(history@).take(i as int),
        decreases n - i,
    {
        rows.push(minute_contribution(&history[i]));
        i += 1;
    }
    proof {
        assert(rows@ =~= of_minutes(history@));
        assert forall|j: int| 0 <= j < rows@.len() implies clock::is_instant(
            (#[trigger] rows@[j]).ts,
        ) by {
            assert(clock::is_instant(history@[j].ts_bucket));
        }
        lemma_minutes_count(history@, history@.len() as int);
    }
    last_bars(&rows, interval_minutes, limit, current_minute_close)
}

/// The start of the oldest of the last `limit` bars.
pub fn oldest_retained_bar_open_time(
    history: &[MinuteBar],
    interval_minutes: i64,
    limit: usize,
    current_minute_close: i64,
) -> (out: Option<i64>)
    requires
        interval_minutes <= clock::WINDOW_LIMIT_MINUTES,
        history@.len() <= i64::MAX,
        forall|i: int|
            0 <= i < history@.len() ==> clock::is_instant(#[trigger] history@[i].ts_bucket),
    ensures
        interval_minutes <= 0 || limit == 0 || history@.len() == 0 ==> out is None,
        interval_minutes == 1 && limit > 0 && history@.len() > 0 ==> out == Some(
            history@[if history@.len() < limit {
                0
            } else {
                history@.len() - limit
            }].ts_bucket,
        ),
        interval_minutes > 1 && limit > 0 && history@.len() > 0 ==> exists|all: Seq<BarModel>|
            {
                &&& #[trigger] are_bars_of(
                    all,
                    of_minutes(history@),
                    interval_minutes * MINUTE_US,
                    history@.len() as int,
                )
                &&& all.len() > 0
                &&& out == Some(
                    all[if all.len() < limit {
                        0
                    } else {
                        all.len() - limit
                    }].open_time,
                )
            },
{
    let bars: Vec<AggregatedBar> = build_interval_bar_records(
        history,
        interval_minutes,
        limit,
        current_minute_close,
    );
    if bars.len() == 0 {
        proof {
            if interval_minutes > 1 && limit > 0 && history@.len() > 0 {
                let all = choose|all: Seq<BarModel>|
                    {
                        &&& #[trigger] are_bars_of(
                            all,
                            of_minutes(history@),
                            interval_minutes * MINUTE_US,
                            history@.len() as int,
                        )
                        &&& bars@.len() == if all.len() < limit {
                            all.len() as int
                        } else {
                            limit as int
                        }
                    };
                let rows = of_minutes(history@);
                assert(has_open(
                    all,
                    clock::floor_spec(rows[0].ts as int, interval_minutes * MINUTE_US),
                ));
                assert(all.len() > 0);
            }
        }
        None
    } else {
        proof {
            if interval_minutes > 1 && limit > 0 {
                let all = choose|all: Seq<BarModel>|
                    {
                        &&& #[trigger] are_bars_of(
                            all,
                            of_minutes(history@),
                            interval_minutes * MINUTE_US,
                            history@.len() as int,
                        )
                        &&& bars@.len() == if all.len() < limit {
                            all.len() as int
                        } else {
                            limit as int
                        }
                        &&& forall|i: int|
                            0 <= i < bars@.len() ==> is_finished(
                                #[trigger] bars@[i],
                                all[all.len() - bars@.len() + i],
                                interval_minutes as int,
                                current_minute_close,
                            )
                    };
                assert(is_finished(
                    bars@[0],
                    all[all.len() - bars@.len()],
                    interval_minutes as int,
                    current_minute_close,
                ));
            }
        }
        Some(bars[0].open_time)
    }
}

/// The last `limit` bars of an interval, built from shorter bars. None for an interval
/// or a limit of nothing.
pub fn build_interval_bar_records_from_records(
    bars: &[KlineHistoryBar],
    interval_minutes: i64,
    limit: usize,
    current_minute_close: i64,
) -> (out: Vec<AggregatedBar>)
    requires
        interval_minutes <= clock::WINDOW_LIMIT_MINUTES,
        forall|i: int| 0 <= i < bars@.len() ==> clock::is_instant((#[trigger] bars@[i]).open_time),
        can_be_counted(of_records(bars@)),
    ensures
        interval_minutes <= 0 || limit == 0 || bars@.len() == 0 ==> out@.len() == 0,
        interval_minutes > 0 && limit > 0 ==> are_last_bars(
            out@,
            of_records(bars@),
            interval_minutes as int,
            limit as int,
            current_minute_close,
        ),
{
    let n: usize = bars.len();
    if interval_minutes <= 0 || limit == 0 || n == 0 {
        let out: Vec<AggregatedBar> = Vec::new();
        proof {
            if interval_minutes > 0 && limit > 0 {
                let none = Seq::<BarModel>::empty();
                assert(are_bars_of(none, of_records(bars@), interval_minutes * MINUTE_US, 0));
                assert(out@.len() == none.len());
            }
        }
        return out;
    }
    let mut rows: Vec<Contribution> = Vec::new();
    let mut i: usize = 0;
    while i < n
        invariant
            i <= n,
            n == bars@.len(),
            rows@ =~= of_records(bars@).take(i as int),
        decreases n - i,
    {
        let bar: KlineHistoryBar = bars[i];
        rows.push(
            Contribution {
                ts: bar.open_time,
                open: bar.open,
                high: bar.high,
                low: bar.low,
                close: bar.close,
                minutes: bar.minutes_covered,
            },
        );
        i += 1;
    }
    proof {
        assert(rows@ =~= of_records(bars@));
    }
    last_bars(&rows, interval_minutes, limit, current_minute_close)
}

impl AggregatedBar {
    /// The bar with its volumes.
    pub open spec fn weighed(self, volumes: (Key, Key)) -> KlineHistoryBar {
        KlineHistoryBar {
            open_time: self.open_time,
            close_time: self.close_time,
            open: self.open,
            high: self.high,
            low: self.low,
            close: self.close,
            volume_base: volumes.0,
            volume_quote: volumes.1,
            is_closed: self.is_closed,
            minutes_covered: self.minutes_covered,
            expected_minutes: self.expected_minutes,
        }
    }

    /// The bar with its volumes added up.
    pub fn with_volumes(&self, volume_base: Key, volume_quote: Key) -> (out: KlineHistoryBar)
        ensures
            out == self.weighed((volume_base, volume_quote)),
    {
        KlineHistoryBar {
            open_time: self.open_time,
            close_time: self.close_time,
            open: self.open,
            high: self.high,
            low: self.low,
            close: self.close,
            volume_base,
            volume_quote,
            is_closed: self.is_closed,
            minutes_covered: self.minutes_covered,
            expected_minutes: self.expected_minutes,
        }
    }
}

/// Whether a bar has any price.
pub open spec fn has_price(bar: KlineHistoryBar) -> bool {
    bar.open is Some || bar.high is Some || bar.low is Some || bar.close is Some
}

/// Whether every minute of a bar was seen.
pub open spec fn is_whole(bar: KlineHistoryBar) -> bool {
    bar.minutes_covered >= if bar.expected_minutes < 1 {
        1
    } else {
        bar.expected_minutes as int
    }
}

/// Whether a bar has any price.
pub fn bar_has_any_price(bar: &KlineHistoryBar) -> (out: bool)
    ensures
        out == has_price(*bar),
{
    bar.open.is_some() || bar.high.is_some() || bar.low.is_some() || bar.close.is_some()
}

/// Whether every minute of a bar was seen.
pub fn bar_has_full_coverage(bar: &KlineHistoryBar) -> (out: bool)
    ensures
        out == is_whole(*bar),
{
    let least: i64 = if bar.expected_minutes < 1 {
        1
    } else {
        bar.expected_minutes
    };
    bar.minutes_covered >= least
}

/// Whether a bar stays in place of another of the same start: it has prices, and it is
/// whole where the other is not, or saw more minutes.
pub open spec fn preserves(existing: KlineHistoryBar, candidate: KlineHistoryBar) -> bool {
    has_price(existing) && ((!is_whole(candidate) && is_whole(existing))
        || existing.minutes_covered > candidate.minutes_covered)
}

/// Whether a bar stays in place of another of the same start.
pub fn should_preserve_existing_bar(
    existing: &KlineHistoryBar,
    candidate: &KlineHistoryBar,
) -> (out: bool)
    ensures
        out == preserves(*existing, *candidate),
{
    if !bar_has_any_price(existing) {
        return false;
    }
    (!bar_has_full_coverage(candidate) && bar_has_full_coverage(existing))
        || existing.minutes_covered > candidate.minutes_covered
}

/// A bar after another was added to it; the volumes are handed in added up.
pub fn apply_record_to_bar(
    target: &mut KlineHistoryBar,
    source: &KlineHistoryBar,
    volume_base: Key,
    volume_quote: Key,
)
    requires
        i64::MIN <= old(target).minutes_covered + source.minutes_covered <= i64::MAX,
    ensures
        *final(target) == (KlineHistoryBar {
            open: or_key(old(target).open, source.open),
            high: higher_of(old(target).high, source.high),
            low: lower_of(old(target).low, source.low),
            close: or_key(source.close, old(target).close),
            volume_base,
            volume_quote,
            minutes_covered: (old(target).minutes_covered + source.minutes_covered) as i64,
            ..*old(target)
        }),
{
    target.open = or(target.open, source.open);
    target.high = match (target.high, source.high) {
        (Some(a), Some(b)) => Some(upper_key(a, b)),
        (Some(a), None) => Some(a),
        (None, b) => b,
    };
    target.low = match (target.low, source.low) {
        (Some(a), Some(b)) => Some(lower_key(a, b)),
        (Some(a), None) => Some(a),
        (None, b) => b,
    };
    target.close = or(source.close, target.close);
    target.volume_base = volume_base;
    target.volume_quote = volume_quote;
    target.minutes_covered = target.minutes_covered + source.minutes_covered;
}

/// The last of the first `hi` stored bars that starts at `t`.
pub open spec fn stored_at(stored: Seq<KlineHistoryBar>, t: i64, hi: int) -> Option<KlineHistoryBar>
    decreases hi,
{
    if hi <= 0 {
        None
    } else if stored[hi - 1].open_time == t {
        Some(stored[hi - 1])
    } else {
        stored_at(stored, t, hi - 1)
    }
}

/// The bar that starts at `t` after the first `hi` new bars were held against what
/// there was.
pub open spec fn merged_at(
    was: Option<KlineHistoryBar>,
    new: Seq<KlineHistoryBar>,
    t: i64,
    hi: int,
) -> Option<KlineHistoryBar>
    decreases hi,
{
    if hi <= 0 {
        was
    } else {
        let before = merged_at(was, new, t, hi - 1);
        let bar = new[hi - 1];
        if bar.open_time != t {
            before
        } else {
            match before {
                Some(existing) => if preserves(existing, bar) {
                    before
                } else {
                    Some(bar)
                },
                None => Some(bar),
            }
        }
    }
}

/// Whether `bars` holds, in the order of their starts, exactly the bars that `at`
/// gives for each start.
pub open spec fn lists(bars: Seq<KlineHistoryBar>, at: spec_fn(i64) -> Option<KlineHistoryBar>) -> bool {
    &&& forall|a: int, b: int|
        0 <= a < b < bars.len() ==> (#[trigger] bars[a]).open_time < (#[trigger] bars[b]).open_time
    &&& forall|a: int|
        0 <= a < bars.len() ==> at((#[trigger] bars[a]).open_time) == Some(bars[a])
    &&& forall|t: i64| (#[trigger] at(t)) is Some ==> holds_start(bars, t)
}

/// Whether one of the bars starts at `t`.
pub open spec fn holds_start(bars: Seq<KlineHistoryBar>, t: i64) -> bool {
    exists|a: int| 0 <= a < bars.len() && (#[trigger] bars[a]).open_time == t
}

/// What the merge of stored and new bars holds for each start.
pub open spec fn merge_of(stored: Seq<KlineHistoryBar>, new: Seq<KlineHistoryBar>) -> spec_fn(
    i64,
) -> Option<KlineHistoryBar> {
    |t: i64| merged_at(stored_at(stored, t, stored.len() as int), new, t, new.len() as int)
}

/// Puts a bar where its start belongs, in place of one of the same start unless that
/// one is to be preserved.
fn put_bar(bars: &mut Vec<KlineHistoryBar>, bar: KlineHistoryBar, keep_better: bool)
    requires
        forall|a: int, b: int|
            0 <= a < b < old(bars)@.len() ==> (#[trigger] old(bars)@[a]).open_time < (
            #[trigger] old(bars)@[b]).open_time,
    ensures
        forall|a: int, b: int|
            0 <= a < b < final(bars)@.len() ==> (#[trigger] final(bars)@[a]).open_time < (
            #[trigger] final(bars)@[b]).open_time,
        forall|a: int|
            0 <= a < final(bars)@.len() && (#[trigger] final(bars)@[a]).open_time != bar.open_time
                ==> old(bars)@.contains(final(bars)@[a]),
        forall|a: int|
            0 <= a < final(bars)@.len() && (#[trigger] final(bars)@[a]).open_time == bar.open_time
                ==> {
                ||| final(bars)@[a] == bar && !(exists|b: int|
                    0 <= b < old(bars)@.len() && (#[trigger] old(bars)@[b]).open_time
                        == bar.open_time && keep_better && preserves(old(bars)@[b], bar))
                ||| keep_better && old(bars)@.contains(final(bars)@[a]) && preserves(
                    final(bars)@[a],
                    bar,
                )
            },
        holds_start(final(bars)@, bar.open_time),
        forall|t: i64| #[trigger] holds_start(old(bars)@, t) ==> holds_start(final(bars)@, t),
{
    let t: i64 = bar.open_time;
    let at: usize = lower_bound(bars, t);
    let ghost before = bars@;
    proof {
        let ts = history::stamps(bars@);
        assert forall|a: int, b: int| 0 <= a <= b < ts.len() implies ts[a] <= ts[b] by {
            if a < b {
                assert(bars@[a].open_time < bars@[b].open_time);
            }
        }
        history::lemma_first_at_or_after(ts, t);
        assert forall|a: int| 0 <= a < at implies (#[trigger] bars@[a]).open_time < t by {
            assert(ts[a] < t);
        }
        assert forall|a: int| at <= a < bars@.len() implies (#[trigger] bars@[a]).open_time >= t by {
            assert(ts[a] >= t);
        }
    }
    if at < bars.len() && bars[at].open_time == t {
        if keep_better && should_preserve_existing_bar(&bars[at], &bar) {
            assert(before[at as int] == bars@[at as int]);
        } else {
            bars.set(at, bar);
            proof {
                assert(bars@[at as int] == bar);
                assert forall|a: int| 0 <= a < bars@.len() && a != at implies bars@[a]
                    == before[a] by {}
                assert forall|b: int| 0 <= b < before.len() && (#[trigger] before[b]).open_time
                    == t implies b == at by {
                    if b > at {
                        assert(before[at as int].open_time < before[b].open_time);
                    }
                }
                assert forall|u: i64| #[trigger] holds_start(before, u) implies holds_start(
                    bars@,
                    u,
                ) by {
                    let a = choose|a: int|
                        0 <= a < before.len() && (#[trigger] before[a]).open_time == u;
                    assert(bars@[a].open_time == u);
                }
            }
        }
    } else {
        bars.insert(at, bar);
        proof {
            assert(bars@[at as int] == bar);
            assert forall|a: int| 0 <= a < bars@.len() implies #[trigger] bars@[a] == if a < at {
                before[a]
            } else if a == at {
                bar
            } else {
                before[a - 1]
            } by {}
            assert forall|a: int, b: int| 0 <= a < b < bars@.len() implies (
            #[trigger] bars@[a]).open_time < (#[trigger] bars@[b]).open_time by {
                if a > at {
                    assert(before[a - 1].open_time < before[b - 1].open_time);
                } else if a < at && b < at {
                    assert(before[a].open_time < before[b].open_time);
                } else if a == at && b - 1 > at {
                    assert(before[at as int].open_time < before[b - 1].open_time);
                }
            }
            assert forall|b: int| 0 <= b < before.len() implies (#[trigger] before[b]).open_time
                != t by {
                if b > at {
                    assert(before[at as int].open_time < before[b].open_time);
                }
            }
            assert forall|u: i64| #[trigger] holds_start(before, u) implies holds_start(
                bars@,
                u,
            ) by {
                let a = choose|a: int|
                    0 <= a < before.len() && (#[trigger] before[a]).open_time == u;
                if a < at {
                    assert(bars@[a].open_time == u);
                } else {
                    assert(bars@[a + 1].open_time == u);
                }
            }
            assert forall|a: int|
                0 <= a < bars@.len() && (#[trigger] bars@[a]).open_time != t implies before.contains(
                bars@[a],
            ) by {
                if a < at {
                    assert(before[a] == bars@[a]);
                } else {
                    assert(before[a - 1] == bars@[a]);
                }
            }
        }
    }
}

/// Stored and new bars in one list, in the order of their starts, one for each start:
/// a new bar takes the place of a stored one unless that one is to be preserved.
pub fn merge_interval_bar_records(
    db_bars: &[KlineHistoryBar],
    in_mem_bars: &[KlineHistoryBar],
) -> (out: Vec<KlineHistoryBar>)
    ensures
        lists(out@, merge_of(db_bars@, in_mem_bars@)),
{
    let mut out: Vec<KlineHistoryBar> = Vec::new();
    let mut i: usize = 0;
    while i < db_bars.len()
        invariant
            i <= db_bars@.len(),
            lists(out@, |t: i64| stored_at(db_bars@, t, i as int)),
        decreases db_bars@.len() - i,
    {
        let ghost before = out@;
        let ghost was = |t: i64| stored_at(db_bars@, t, i as int);
        let ghost now = |t: i64| stored_at(db_bars@, t, i + 1);
        let bar: KlineHistoryBar = db_bars[i];
        put_bar(&mut out, bar, false);
        proof {
            lemma_put_lists(before, out@, bar, was, now);
        }
        i += 1;
    }
    let ghost stored = db_bars@;
    let mut j: usize = 0;
    proof {
        let was = |t: i64| stored_at(db_bars@, t, i as int);
        let now = |t: i64|
            merged_at(stored_at(stored, t, stored.len() as int), in_mem_bars@, t, 0);
        assert forall|t: i64| #[trigger] was(t) == now(t) by {}
        lemma_lists_same(out@, was, now);
    }
    while j < in_mem_bars.len()
        invariant
            j <= in_mem_bars@.len(),
            stored == db_bars@,
            lists(
                out@,
                |t: i64|
                    merged_at(
                        stored_at(stored, t, stored.len() as int),
                        in_mem_bars@,
                        t,
                        j as int,
                    ),
            ),
        decreases in_mem_bars@.len() - j,
    {
        let ghost before = out@;
        let ghost was = |t: i64|
            merged_at(stored_at(stored, t, stored.len() as int), in_mem_bars@, t, j as int);
        let ghost now = |t: i64|
            merged_at(stored_at(stored, t, stored.len() as int), in_mem_bars@, t, j + 1);
        let bar: KlineHistoryBar = in_mem_bars[j];
        put_bar(&mut out, bar, true);
        proof {
            lemma_put_lists_better(before, out@, bar, was, now);
        }
        j += 1;
    }
    proof {
        let was = |t: i64|
            merged_at(stored_at(stored, t, stored.len() as int), in_mem_bars@, t, j as int);
        lemma_lists_same(out@, was, merge_of(db_bars@, in_mem_bars@));
    }
    out
}

proof fn lemma_lists_same(
    bars: Seq<KlineHistoryBar>,
    a: spec_fn(i64) -> Option<KlineHistoryBar>,
    b: spec_fn(i64) -> Option<KlineHistoryBar>,
)
    requires
        lists(bars, a),
        forall|t: i64| #[trigger] a(t) == b(t),
    ensures
        lists(bars, b),
{
    assert forall|x: int| 0 <= x < bars.len() implies b((#[trigger] bars[x]).open_time) == Some(
        bars[x],
    ) by {
        assert(a(bars[x].open_time) == b(bars[x].open_time));
    }
    assert forall|t: i64| (#[trigger] b(t)) is Some implies holds_start(bars, t) by {
        assert(a(t) == b(t));
    }
}

proof fn lemma_put_lists(
    before: Seq<KlineHistoryBar>,
    after: Seq<KlineHistoryBar>,
    bar: KlineHistoryBar,
    was: spec_fn(i64) -> Option<KlineHistoryBar>,
    now: spec_fn(i64) -> Option<KlineHistoryBar>,
)
    requires
        lists(before, was),
        forall|t: i64|
            #[trigger] now(t) == if t == bar.open_time {
                Some(bar)
            } else {
                was(t)
            },
        forall|a: int, b: int|
            0 <= a < b < after.len() ==> (#[trigger] after[a]).open_time < (
            #[trigger] after[b]).open_time,
        forall|a: int|
            0 <= a < after.len() && (#[trigger] after[a]).open_time != bar.open_time
                ==> before.contains(after[a]),
        forall|a: int|
            0 <= a < after.len() && (#[trigger] after[a]).open_time == bar.open_time ==> after[a]
                == bar,
        holds_start(after, bar.open_time),
        forall|t: i64| #[trigger] holds_start(before, t) ==> holds_start(after, t),
    ensures
        lists(after, now),
{
    assert forall|a: int| 0 <= a < after.len() implies now((#[trigger] after[a]).open_time)
        == Some(after[a]) by {
        if after[a].open_time != bar.open_time {
            let b = choose|b: int| 0 <= b < before.len() && before[b] == after[a];
            assert(was(before[b].open_time) == Some(before[b]));
        }
    }
    assert forall|t: i64| (#[trigger] now(t)) is Some implies holds_start(after, t) by {
        if t != bar.open_time {
            assert(was(t) is Some);
            assert(holds_start(before, t));
        }
    }
}

proof fn lemma_put_lists_better(
    before: Seq<KlineHistoryBar>,
    after: Seq<KlineHistoryBar>,
    bar: KlineHistoryBar,
    was: spec_fn(i64) -> Option<KlineHistoryBar>,
    now: spec_fn(i64) -> Option<KlineHistoryBar>,
)
    requires
        lists(before, was),
        forall|t: i64|
            #[trigger] now(t) == if t != bar.open_time {
                was(t)
            } else {
                match was(t) {
                    Some(existing) => if preserves(existing, bar) {
                        was(t)
                    } else {
                        Some(bar)
                    },
                    None => Some(bar),
                }
            },
        forall|a: int, b: int|
            0 <= a < b < after.len() ==> (#[trigger] after[a]).open_time < (
            #[trigger] after[b]).open_time,
        forall|a: int|
            0 <= a < after.len() && (#[trigger] after[a]).open_time != bar.open_time
                ==> before.contains(after[a]),
        forall|a: int|
            0 <= a < after.len() && (#[trigger] after[a]).open_time == bar.open_time ==> {
                ||| after[a] == bar && !(exists|b: int|
                    0 <= b < before.len() && (#[trigger] before[b]).open_time == bar.open_time
                        && true && preserves(before[b], bar))
                ||| true && before.contains(after[a]) && preserves(after[a], bar)
            },
        holds_start(after, bar.open_time),
        forall|t: i64| #[trigger] holds_start(before, t) ==> holds_start(after, t),
    ensures
        lists(after, now),
{
    let t = bar.open_time;
    assert forall|a: int| 0 <= a < after.len() implies now((#[trigger] after[a]).open_time)
        == Some(after[a]) by {
        if after[a].open_time != t {
            let b = choose|b: int| 0 <= b < before.len() && before[b] == after[a];
            assert(was(before[b].open_time) == Some(before[b]));
        } else {
            assert(now(t) == now(after[a].open_time));
            if before.contains(after[a]) && preserves(after[a], bar) {
                let b = choose|b: int| 0 <= b < before.len() && before[b] == after[a];
                assert(was(before[b].open_time) == Some(before[b]));
            } else {
                if was(t) is Some {
                    assert(holds_start(before, t));
                    let b = choose|b: int|
                        0 <= b < before.len() && (#[trigger] before[b]).open_time == t;
                    assert(was(before[b].open_time) == Some(before[b]));
                    assert(!preserves(before[b], bar));
                }
            }
        }
    }
    assert forall|u: i64| (#[trigger] now(u)) is Some implies holds_start(after, u) by {
        if u != t {
            assert(was(u) is Some);
            assert(holds_start(before, u));
        }
    }
}

/// The last `limit` bars of the merge of stored and new bars.
pub fn build_interval_bars_with_db(
    db_bars: &[KlineHistoryBar],
    in_mem_bars: &[KlineHistoryBar],
    limit: usize,
) -> (out: Vec<KlineHistoryBar>)
    ensures
        exists|all: Seq<KlineHistoryBar>|
            #[trigger] lists(all, merge_of(db_bars@, in_mem_bars@)) && out@ == last_of(
                all,
                limit as int,
            ),
{
    let mut merged: Vec<KlineHistoryBar> = merge_interval_bar_records(db_bars, in_mem_bars);
    let ghost all = merged@;
    if merged.len() > limit {
        let skip: usize = merged.len() - limit;
        merged = merged.split_off(skip);
    }
    proof {
        assert(lists(all, merge_of(db_bars@, in_mem_bars@)));
        assert(merged@ =~= last_of(all, limit as int));
    }
    merged
}

/// There is one list only that holds what is asked for.
pub proof fn law_lists_are_unique(
    a: Seq<KlineHistoryBar>,
    b: Seq<KlineHistoryBar>,
    at: spec_fn(i64) -> Option<KlineHistoryBar>,
)
    requires
        lists(a, at),
        lists(b, at),
    ensures
        a == b,
{
    assert forall|i: int| 0 <= i < a.len() && i < b.len() implies a[i] == b[i] by {
        lemma_same_list_order(a, b, at, i);
    }
    if a.len() < b.len() {
        let t = b[a.len() as int].open_time;
        assert(at(t) is Some);
        assert(holds_start(a, t));
        let j = choose|j: int| 0 <= j < a.len() && (#[trigger] a[j]).open_time == t;
        assert(b[j].open_time < b[a.len() as int].open_time);
        assert(a[j] == b[j]);
    }
    if b.len() < a.len() {
        let t = a[b.len() as int].open_time;
        assert(at(t) is Some);
        assert(holds_start(b, t));
        let j = choose|j: int| 0 <= j < b.len() && (#[trigger] b[j]).open_time == t;
        assert(a[j].open_time < a[b.len() as int].open_time);
        assert(a[j] == b[j]);
    }
    assert(a =~= b);
}

proof fn lemma_same_list_order(
    a: Seq<KlineHistoryBar>,
    b: Seq<KlineHistoryBar>,
    at: spec_fn(i64) -> Option<KlineHistoryBar>,
    i: int,
)
    requires
        lists(a, at),
        lists(b, at),
        0 <= i < a.len(),
        i < b.len(),
    ensures
        a[i] == b[i],
    decreases i,
{
    assert forall|k: int| 0 <= k < i implies a[k] == b[k] by {
        lemma_same_list_order(a, b, at, k);
    }
    assert(at(a[i].open_time) == Some(a[i]));
    assert(at(b[i].open_time) == Some(b[i]));
    assert(holds_start(b, a[i].open_time));
    let y = choose|y: int| 0 <= y < b.len() && (#[trigger] b[y]).open_time == a[i].open_time;
    assert(holds_start(a, b[i].open_time));
    let x = choose|x: int| 0 <= x < a.len() && (#[trigger] a[x]).open_time == b[i].open_time;
    if y < i {
        assert(a[y] == b[y]);
        assert(a[y].open_time < a[i].open_time);
    }
    if x < i {
        assert(a[x] == b[x]);
        assert(b[x].open_time < b[i].open_time);
    }
    if i < y && i < x {
        assert(b[i].open_time < b[y].open_time);
        assert(a[i].open_time < a[x].open_time);
    }
    assert(at(b[y].open_time) == Some(b[y]));
}

/// A whole stored bar with prices is never replaced by one that is not whole.
pub proof fn law_whole_bars_survive(
    stored: Seq<KlineHistoryBar>,
    new: Seq<KlineHistoryBar>,
    t: i64,
)
    requires
        stored_at(stored, t, stored.len() as int) matches Some(bar) && has_price(bar) && is_whole(
            bar,
        ),
        forall|j: int|
            0 <= j < new.len() && (#[trigger] new[j]).open_time == t ==> !is_whole(new[j]),
    ensures
        merge_of(stored, new)(t) == stored_at(stored, t, stored.len() as int),
{
    lemma_whole_survives(
        stored_at(stored, t, stored.len() as int),
        new,
        t,
        new.len() as int,
    );
}

proof fn lemma_whole_survives(
    was: Option<KlineHistoryBar>,
    new: Seq<KlineHistoryBar>,
    t: i64,
    hi: int,
)
    requires
        was matches Some(bar) && has_price(bar) && is_whole(bar),
        0 <= hi <= new.len(),
        forall|j: int|
            0 <= j < new.len() && (#[trigger] new[j]).open_time == t ==> !is_whole(new[j]),
    ensures
        merged_at(was, new, t, hi) == was,
    decreases hi,
{
    if hi > 0 {
        lemma_whole_survives(was, new, t, hi - 1);
        if new[hi - 1].open_time == t {
            assert(!is_whole(new[hi - 1]));
        }
    }
}

/// Where the bars of an interval come from.
#[derive(Clone, Copy, Debug, PartialEq, Eq)]
pub enum BarSource {
    /// From minutes alone.
    Minutes,
    /// From minutes merged with stored bars of the same interval.
    MinutesAndStored,
    /// From bars of one day.
    DailyBars,
}

/// Where the bars of an interval come from: spans of several days from daily bars, four
/// hours with stored bars, one day with stored bars where that is switched on.
pub fn bar_source(interval_minutes: i64, fill_1d_from_db: bool) -> (out: BarSource)
    ensures
        out == if interval_minutes > 1440 {
            BarSource::DailyBars
        } else if interval_minutes == 240 || (interval_minutes == 1440 && fill_1d_from_db) {
            BarSource::MinutesAndStored
        } else {
            BarSource::Minutes
        },
{
    if interval_minutes > 1440 {
        BarSource::DailyBars
    } else if interval_minutes == 240 || (interval_minutes == 1440 && fill_1d_from_db) {
        BarSource::MinutesAndStored
    } else {
        BarSource::Minutes
    }
}

/// The bars of one interval of one market.
pub enum IntervalBars {
    /// Bars that are ready.
    Ready(Vec<KlineHistoryBar>),
    /// Bars whose volumes are still to be added up from daily bars.
    Aggregated(Vec<AggregatedBar>),
}

/// The intervals that the indicator reports, by name and minutes.
pub open spec fn spec_intervals() -> Seq<(Seq<char>, i64)> {
    seq![
        ("1m"@, 1i64),
        ("15m"@, 15),
        ("4h"@, 240),
        ("1d"@, 1440),
        ("3d"@, 4320),
        ("7d"@, 10_080),
        ("30d"@, 43_200),
    ]
}

/// The intervals that the indicator reports, by name and minutes.
pub fn intervals() -> (out: [(&'static str, i64); 7])
    ensures
        forall|i: int|
            0 <= i < 7 ==> (#[trigger] out@[i]).0@ == spec_intervals()[i].0 && out@[i].1
                == spec_intervals()[i].1,
{
    [
        ("1m", 1),
        ("15m", 15),
        ("4h", 240),
        ("1d", 1440),
        ("3d", 4320),
        ("7d", 10_080),
        ("30d", 43_200),
    ]
}

/// The volumes, in base and in quote currency, of the minutes at the given places.
pub type VolumeGauge = spec_fn(Seq<usize>) -> (Key, Key);

/// The volumes of the bars at the given places of a list.
pub type SumGauge = spec_fn(Seq<KlineHistoryBar>, Seq<usize>) -> (Key, Key);

/// Whether a function adds the volumes of minutes up as `gauge` does.
pub open spec fn weighs_as<F: Fn(&[usize]) -> (Key, Key)>(volumes: F, gauge: VolumeGauge) -> bool {
    forall|parts: &[usize], v: (Key, Key)| #[trigger]
        call_ensures(volumes, (parts,), v) ==> v == gauge(parts@)
}

/// Whether a function adds the volumes of bars up as `gauge` does.
pub open spec fn sums_as<G: Fn(&[KlineHistoryBar], &[usize]) -> (Key, Key)>(
    sums: G,
    gauge: SumGauge,
) -> bool {
    forall|bars: &[KlineHistoryBar], parts: &[usize], v: (Key, Key)| #[trigger]
        call_ensures(sums, (bars, parts), v) ==> v == gauge(bars@, parts@)
}

/// Bars of minutes with their volumes.
pub open spec fn weighed_bars(bars: Seq<AggregatedBar>, gauge: VolumeGauge) -> Seq<KlineHistoryBar> {
    Seq::new(bars.len(), |i: int| bars[i].weighed(gauge(bars[i].parts@)))
}

/// Bars of daily bars with their volumes.
pub open spec fn summed_bars(
    bars: Seq<AggregatedBar>,
    daily: Seq<KlineHistoryBar>,
    gauge: SumGauge,
) -> Seq<KlineHistoryBar> {
    Seq::new(bars.len(), |i: int| bars[i].weighed(gauge(daily, bars[i].parts@)))
}

/// Whether `bars` are all the bars of an interval that minutes give, with their volumes.
pub open spec fn are_minute_bars(
    bars: Seq<KlineHistoryBar>,
    history: Seq<MinuteBar>,
    interval_minutes: i64,
    current_minute_close: i64,
    gauge: VolumeGauge,
) -> bool {
    exists|cut: Seq<AggregatedBar>| #[trigger]
        are_interval_bars(
            cut,
            history,
            interval_minutes,
            usize::MAX as int,
            current_minute_close,
        ) && bars == weighed_bars(cut, gauge)
}

/// Whether `daily` are the daily bars of a market: the stored ones merged with those that
/// minutes give.
pub open spec fn are_daily_bars(
    daily: Seq<KlineHistoryBar>,
    history: Seq<MinuteBar>,
    stored_1d: Seq<KlineHistoryBar>,
    current_minute_close: i64,
    gauge: VolumeGauge,
) -> bool {
    exists|days: Seq<KlineHistoryBar>| #[trigger]
        are_minute_bars(days, history, DAY_MINUTES, current_minute_close, gauge) && lists(
            daily,
            merge_of(stored_1d, days),
        )
}

/// Whether bars can be added up: their starts are instants, and their minutes can be
/// counted.
pub open spec fn can_be_summed(bars: Seq<KlineHistoryBar>) -> bool {
    &&& forall|i: int| 0 <= i < bars.len() ==> clock::is_instant((#[trigger] bars[i]).open_time)
    &&& can_be_counted(of_records(bars))
}

/// Whether `out` are the last `limit` bars of an interval that daily bars give, with their
/// volumes.
pub open spec fn are_long_bars(
    out: Seq<KlineHistoryBar>,
    daily: Seq<KlineHistoryBar>,
    interval_minutes: i64,
    limit: int,
    current_minute_close: i64,
    gauge: SumGauge,
) -> bool {
    if limit == 0 {
        out.len() == 0
    } else {
        exists|cut: Seq<AggregatedBar>| #[trigger]
            are_last_bars(
                cut,
                of_records(daily),
                interval_minutes as int,
                limit,
                current_minute_close,
            ) && out == summed_bars(cut, daily, gauge)
    }
}

/// One market: its minutes, and the bars that are stored of it.
pub struct MarketHistory<'a> {
    pub history: &'a [MinuteBar],
    pub stored_4h: &'a [KlineHistoryBar],
    pub stored_1d: &'a [KlineHistoryBar],
}

/// Whether `out` are the last `limit` bars of an interval of a market. Spans of several days
/// come from daily bars, none where those cannot be added up; the others from minutes,
/// merged with the stored bars for four hours and, where that is switched on, for one day.
pub open spec fn are_market_bars(
    out: Option<Seq<KlineHistoryBar>>,
    market: MarketHistory<'_>,
    interval_minutes: i64,
    limit: int,
    fill_1d_from_db: bool,
    current_minute_close: i64,
    gauge: VolumeGauge,
    sum_gauge: SumGauge,
) -> bool {
    if interval_minutes > DAY_MINUTES {
        exists|daily: Seq<KlineHistoryBar>| #[trigger]
            are_daily_bars(
                daily,
                market.history@,
                market.stored_1d@,
                current_minute_close,
                gauge,
            ) && match out {
                Some(bars) => can_be_summed(daily) && are_long_bars(
                    bars,
                    daily,
                    interval_minutes,
                    limit,
                    current_minute_close,
                    sum_gauge,
                ),
                None => !can_be_summed(daily),
            }
    } else {
        &&& out is Some
        &&& exists|minute_bars: Seq<KlineHistoryBar>| #[trigger]
            are_minute_bars(
                minute_bars,
                market.history@,
                interval_minutes,
                current_minute_close,
                gauge,
            ) && are_last_listed(
                out->0,
                limit,
                interval_minutes == 240 || (interval_minutes == DAY_MINUTES && fill_1d_from_db),
                if interval_minutes == DAY_MINUTES {
                    market.stored_1d@
                } else {
                    market.stored_4h@
                },
                minute_bars,
            )
    }
}

/// Bars of minutes with the volumes that `volumes` adds up.
fn weigh_bars<F: Fn(&[usize]) -> (Key, Key)>(cut: &Vec<AggregatedBar>, volumes: &F) -> (out: Vec<
    KlineHistoryBar,
>)
    requires
        forall|parts: &[usize]| #[trigger] call_requires(*volumes, (parts,)),
    ensures
        forall|gauge: VolumeGauge| #[trigger]
            weighs_as(*volumes, gauge) ==> out@ == weighed_bars(cut@, gauge),
{
    let mut out: Vec<KlineHistoryBar> = Vec::new();
    let mut i: usize = 0;
    while i < cut.len()
        invariant
            i <= cut@.len(),
            i == out@.len(),
            forall|parts: &[usize]| #[trigger] call_requires(*volumes, (parts,)),
            forall|gauge: VolumeGauge, j: int|
                #![trigger weighs_as(*volumes, gauge), out@[j]]
                weighs_as(*volumes, gauge) && 0 <= j < i ==> out@[j] == cut@[j].weighed(
                    gauge(cut@[j].parts@),
                ),
        decreases cut@.len() - i,
    {
        let (base, quote) = volumes(cut[i].parts.as_slice());
        out.push(cut[i].with_volumes(base, quote));
        i += 1;
    }
    proof {
        assert forall|gauge: VolumeGauge| #[trigger] weighs_as(*volumes, gauge) implies out@
            == weighed_bars(cut@, gauge) by {
            assert(out@ =~= weighed_bars(cut@, gauge));
        }
    }
    out
}

/// Bars of daily bars with the volumes that `sums` adds up.
fn sum_bars<G: Fn(&[KlineHistoryBar], &[usize]) -> (Key, Key)>(
    cut: &Vec<AggregatedBar>,
    daily: &Vec<KlineHistoryBar>,
    sums: &G,
) -> (out: Vec<KlineHistoryBar>)
    requires
        forall|bars: &[KlineHistoryBar], parts: &[usize]| #[trigger]
            call_requires(*sums, (bars, parts)),
    ensures
        forall|gauge: SumGauge| #[trigger]
            sums_as(*sums, gauge) ==> out@ == summed_bars(cut@, daily@, gauge),
        out@.len() == cut@.len(),
{
    let mut out: Vec<KlineHistoryBar> = Vec::new();
    let mut i: usize = 0;
    while i < cut.len()
        invariant
            i <= cut@.len(),
            i == out@.len(),
            forall|bars: &[KlineHistoryBar], parts: &[usize]| #[trigger]
                call_requires(*sums, (bars, parts)),
            forall|gauge: SumGauge, j: int|
                #![trigger sums_as(*sums, gauge), out@[j]]
                sums_as(*sums, gauge) && 0 <= j < i ==> out@[j] == cut@[j].weighed(
                    gauge(daily@, cut@[j].parts@),
                ),
        decreases cut@.len() - i,
    {
        let (base, quote) = sums(daily.as_slice(), cut[i].parts.as_slice());
        out.push(cut[i].with_volumes(base, quote));
        i += 1;
    }
    proof {
        assert forall|gauge: SumGauge| #[trigger] sums_as(*sums, gauge) implies out@
            == summed_bars(cut@, daily@, gauge) by {
            assert(out@ =~= summed_bars(cut@, daily@, gauge));
        }
    }
    out
}

/// The minutes that fewer rows stand for are no more.
proof fn lemma_minutes_upto_grow(rows: Seq<Contribution>, a: int, b: int)
    requires
        0 <= a <= b,
    ensures
        minutes_upto(rows, a) <= minutes_upto(rows, b),
    decreases b - a,
{
    if a < b {
        lemma_minutes_upto_grow(rows, a, b - 1);
    }
}

/// Whether bars can be added up.
fn are_summable(bars: &[KlineHistoryBar]) -> (out: bool)
    ensures
        out == can_be_summed(bars@),
{
    let ghost rows = of_records(bars@);
    let mut total: i64 = 0;
    let mut i: usize = 0;
    while i < bars.len()
        invariant
            i <= bars@.len(),
            rows == of_records(bars@),
            0 <= total,
            total == minutes_upto(rows, i as int),
            forall|j: int| 0 <= j < i ==> clock::is_instant((#[trigger] bars@[j]).open_time),
        decreases bars@.len() - i,
    {
        let bar: KlineHistoryBar = bars[i];
        proof {
            lemma_minutes_upto_grow(rows, i + 1, bars@.len() as int);
            assert(rows[i as int].minutes == bar.minutes_covered);
        }
        if bar.open_time < -INSTANT_LIMIT_US || bar.open_time > INSTANT_LIMIT_US {
            assert(!clock::is_instant(bars@[i as int].open_time));
            return false;
        }
        if bar.minutes_covered == i64::MIN {
            return false;
        }
        let size: i64 = if bar.minutes_covered < 0 {
            -bar.minutes_covered
        } else {
            bar.minutes_covered
        };
        if size > i64::MAX - total {
            return false;
        }
        total = total + size;
        i += 1;
    }
    true
}

/// The kline history indicator.
pub struct I19KlineHistory;

impl I19KlineHistory {
    /// The code of the indicator.
    pub fn code(&self) -> (out: &'static str)
        ensures
            out@ == "kline_history"@,
    {
        "kline_history"
    }

    /// The last `limit` bars of one interval of one market. `minute_bars` are all the
    /// bars of the interval built from minutes, `daily_bars` all daily bars, and
    /// `db_bars` the stored bars of the interval.
    pub fn evaluate(
        &self,
        interval_minutes: i64,
        limit: usize,
        fill_1d_from_db: bool,
        minute_bars: &[KlineHistoryBar],
        daily_bars: &[KlineHistoryBar],
        db_bars: &[KlineHistoryBar],
        current_minute_close: i64,
    ) -> (out: IntervalBars)
        requires
            interval_minutes <= clock::WINDOW_LIMIT_MINUTES,
            forall|i: int|
                0 <= i < daily_bars@.len() ==> clock::is_instant(
                    (#[trigger] daily_bars@[i]).open_time,
                ),
            can_be_counted(of_records(daily_bars@)),
        ensures
            out is Aggregated <==> interval_minutes > 1440,
            out matches IntervalBars::Aggregated(bars) ==> if limit == 0 {
                bars@.len() == 0
            } else {
                are_last_bars(
                    bars@,
                    of_records(daily_bars@),
                    interval_minutes as int,
                    limit as int,
                    current_minute_close,
                )
            },
            out matches IntervalBars::Ready(bars) ==> are_last_listed(
                bars@,
                limit as int,
                interval_minutes == 240 || (interval_minutes == 1440 && fill_1d_from_db),
                db_bars@,
                minute_bars@,
            ),
    {
        match bar_source(interval_minutes, fill_1d_from_db) {
            BarSource::DailyBars => IntervalBars::Aggregated(
                build_interval_bar_records_from_records(
                    daily_bars,
                    interval_minutes,
                    limit,
                    current_minute_close,
                ),
            ),
            BarSource::MinutesAndStored => {
                let bars: Vec<KlineHistoryBar> = build_interval_bars_with_db(
                    db_bars,
                    minute_bars,
                    limit,
                );
                proof {
                    let all = choose|all: Seq<KlineHistoryBar>|
                        #[trigger] lists(all, merge_of(db_bars@, minute_bars@)) && bars@
                            == last_of(all, limit as int);
                    let merged = interval_minutes == 240 || (interval_minutes == 1440
                        && fill_1d_from_db);
                    assert(is_listed(all, merged, db_bars@, minute_bars@));
                }
                IntervalBars::Ready(bars)
            },
            BarSource::Minutes => {
                let n: usize = minute_bars.len();
                let first: usize = if n < limit {
                    0
                } else {
                    n - limit
                };
                let mut bars: Vec<KlineHistoryBar> = Vec::new();
                let mut i: usize = first;
                while i < n
                    invariant
                        first <= i <= n,
                        n == minute_bars@.len(),
                        bars@ =~= minute_bars@.subrange(first as int, i as int),
                    decreases n - i,
                {
                    bars.push(minute_bars[i]);
                    i += 1;
                }
                proof {
                    let all = minute_bars@;
                    let merged = interval_minutes == 240 || (interval_minutes == 1440
                        && fill_1d_from_db);
                    assert(is_listed(all, merged, db_bars@, minute_bars@));
                    assert(bars@ =~= last_of(all, limit as int));
                }
                IntervalBars::Ready(bars)
            },
        }
    }

    /// The last `limit` bars of one interval of one market, from its minutes and what is
    /// stored of it. `volumes` adds the volumes of minutes up, by their places, and `sums`
    /// those of daily bars.
    pub fn market_bars<
        F: Fn(&[usize]) -> (Key, Key),
        G: Fn(&[KlineHistoryBar], &[usize]) -> (Key, Key),
    >(
        &self,
        market: &MarketHistory<'_>,
        interval_minutes: i64,
        limit: usize,
        fill_1d_from_db: bool,
        current_minute_close: i64,
        volumes: F,
        sums: G,
    ) -> (out: Option<Vec<KlineHistoryBar>>)
        requires
            interval_minutes <= clock::WINDOW_LIMIT_MINUTES,
            market.history@.len() <= i64::MAX,
            forall|i: int|
                0 <= i < market.history@.len() ==> clock::is_instant(
                    #[trigger] market.history@[i].ts_bucket,
                ),
            forall|parts: &[usize]| #[trigger] call_requires(volumes, (parts,)),
            forall|bars: &[KlineHistoryBar], parts: &[usize]| #[trigger]
                call_requires(sums, (bars, parts)),
        ensures
            forall|gauge: VolumeGauge, sum_gauge: SumGauge|
                #![trigger weighs_as(volumes, gauge), sums_as(sums, sum_gauge)]
                weighs_as(volumes, gauge) && sums_as(sums, sum_gauge) ==> are_market_bars(
                    match out {
                        Some(bars) => Some(bars@),
                        None => None,
                    },
                    *market,
                    interval_minutes,
                    limit as int,
                    fill_1d_from_db,
                    current_minute_close,
                    gauge,
                    sum_gauge,
                ),
            interval_minutes <= DAY_MINUTES ==> out is Some,
    {
        let none: Vec<KlineHistoryBar> = Vec::new();
        if interval_minutes > DAY_MINUTES {
            let cut: Vec<AggregatedBar> = build_interval_bar_records(
                market.history,
                DAY_MINUTES,
                usize::MAX,
                current_minute_close,
            );
            let days: Vec<KlineHistoryBar> = weigh_bars(&cut, &volumes);
            let daily: Vec<KlineHistoryBar> = merge_interval_bar_records(
                market.stored_1d,
                days.as_slice(),
            );
            proof {
                assert forall|gauge: VolumeGauge| #[trigger]
                    weighs_as(volumes, gauge) implies are_daily_bars(
                    daily@,
                    market.history@,
                    market.stored_1d@,
                    current_minute_close,
                    gauge,
                ) by {
                    assert(are_minute_bars(
                        days@,
                        market.history@,
                        DAY_MINUTES,
                        current_minute_close,
                        gauge,
                    ));
                }
            }
            if !are_summable(daily.as_slice()) {
                return None;
            }
            match self.evaluate(
                interval_minutes,
                limit,
                fill_1d_from_db,
                none.as_slice(),
                daily.as_slice(),
                none.as_slice(),
                current_minute_close,
            ) {
                IntervalBars::Aggregated(long) => {
                    let bars: Vec<KlineHistoryBar> = sum_bars(&long, &daily, &sums);
                    proof {
                        assert forall|sum_gauge: SumGauge| #[trigger]
                            sums_as(sums, sum_gauge) implies are_long_bars(
                            bars@,
                            daily@,
                            interval_minutes,
                            limit as int,
                            current_minute_close,
                            sum_gauge,
                        ) by {
                            assert(bars@ == summed_bars(long@, daily@, sum_gauge));
                        }
                    }
                    Some(bars)
                },
                IntervalBars::Ready(bars) => Some(bars),
            }
        } else {
            let cut: Vec<AggregatedBar> = build_interval_bar_records(
                market.history,
                interval_minutes,
                usize::MAX,
                current_minute_close,
            );
            let minute_bars: Vec<KlineHistoryBar> = weigh_bars(&cut, &volumes);
            proof {
                assert forall|gauge: VolumeGauge| #[trigger]
                    weighs_as(volumes, gauge) implies are_minute_bars(
                    minute_bars@,
                    market.history@,
                    interval_minutes,
                    current_minute_close,
                    gauge,
                ) by {
                    assert(minute_bars@ == weighed_bars(cut@, gauge));
                }
                assert(of_records(none@) =~= Seq::empty());
            }
            let stored: &[KlineHistoryBar] = if interval_minutes == DAY_MINUTES {
                market.stored_1d
            } else {
                market.stored_4h
            };
            match self.evaluate(
                interval_minutes,
                limit,
                fill_1d_from_db,
                minute_bars.as_slice(),
                none.as_slice(),
                stored,
                current_minute_close,
            ) {
                IntervalBars::Ready(bars) => Some(bars),
                IntervalBars::Aggregated(_) => Some(none),
            }
        }
    }
}

/// Whether `bars` are the last ones, `limit` at most, of those to choose from.
pub open spec fn are_last_listed(
    bars: Seq<KlineHistoryBar>,
    limit: int,
    merged: bool,
    db_bars: Seq<KlineHistoryBar>,
    minute_bars: Seq<KlineHistoryBar>,
) -> bool {
    exists|all: Seq<KlineHistoryBar>|
        #[trigger] is_listed(all, merged, db_bars, minute_bars) && bars == last_of(all, limit)
}

/// The last bars of a list, `limit` at most.
pub open spec fn last_of(all: Seq<KlineHistoryBar>, limit: int) -> Seq<KlineHistoryBar> {
    all.subrange(
        if all.len() < limit {
            0
        } else {
            all.len() - limit
        },
        all.len() as int,
    )
}

/// Whether `all` are the bars to choose from: the merge with stored bars, or the bars
/// built from minutes as they are.
pub open spec fn is_listed(
    all: Seq<KlineHistoryBar>,
    merged: bool,
    db_bars: Seq<KlineHistoryBar>,
    minute_bars: Seq<KlineHistoryBar>,
) -> bool {
    if merged {
        lists(all, merge_of(db_bars, minute_bars))
    } else {
        all == minute_bars
    }
}

/// What a minute contributes: its own high, low, first and closing price where it has them.
/// A missing high or low gives way to the close, then to the last price, then to the first; a
/// missing close to the last price, then to the first; a missing first price to the last
/// price, then to the close. So a minute with no price at all contributes none.
pub proof fn law_minute_contributes(minute: MinuteBar)
    ensures
        ({
            let c = of_minute(minute);
            &&& c.ts == minute.ts_bucket && c.minutes == 1
            &&& minute.high_price is Some ==> c.high == minute.high_price
            &&& minute.low_price is Some ==> c.low == minute.low_price
            &&& minute.close_price is Some ==> c.close == minute.close_price
            &&& minute.open_price is Some ==> c.open == minute.open_price
            &&& minute.close_price is Some ==> {
                &&& minute.high_price is None ==> c.high == minute.close_price
                &&& minute.low_price is None ==> c.low == minute.close_price
                &&& minute.open_price is None && minute.last_price is None ==> c.open
                    == minute.close_price
            }
            &&& minute.last_price is Some ==> {
                &&& minute.high_price is None && minute.close_price is None ==> c.high
                    == minute.last_price
                &&& minute.low_price is None && minute.close_price is None ==> c.low
                    == minute.last_price
                &&& minute.close_price is None ==> c.close == minute.last_price
                &&& minute.open_price is None ==> c.open == minute.last_price
            }
            &&& minute.close_price is None && minute.last_price is None ==> {
                &&& minute.high_price is None ==> c.high == minute.open_price
                &&& minute.low_price is None ==> c.low == minute.open_price
                &&& c.close == minute.open_price
                &&& c.open == minute.open_price
            }
        }),
{
}

/// What a shorter bar contributes: its own prices, and the minutes that it covers.
pub proof fn law_record_contributes(bar: KlineHistoryBar)
    ensures
        ({
            let c = of_record(bar);
            &&& c.ts == bar.open_time && c.minutes == bar.minutes_covered
            &&& c.open == bar.open && c.high == bar.high && c.low == bar.low && c.close == bar.close
        }),
{
}

/// Whether a figure is the highest high of the rows at some places; none where none has one.
pub open spec fn is_top(rows: Seq<Contribution>, places: Set<int>, top: Option<Key>) -> bool {
    match top {
        Some(h) => {
            &&& forall|i: int|
                places.contains(i) && (#[trigger] rows[i]).high is Some ==> rows[i].high->0 <= h
            &&& exists|i: int| places.contains(i) && (#[trigger] rows[i]).high == Some(h)
        },
        None => forall|i: int| places.contains(i) ==> (#[trigger] rows[i]).high is None,
    }
}

/// Whether a figure is the lowest low of the rows at some places; none where none has one.
pub open spec fn is_bottom(rows: Seq<Contribution>, places: Set<int>, bottom: Option<Key>) -> bool {
    match bottom {
        Some(l) => {
            &&& forall|i: int|
                places.contains(i) && (#[trigger] rows[i]).low is Some ==> l <= rows[i].low->0
            &&& exists|i: int| places.contains(i) && (#[trigger] rows[i]).low == Some(l)
        },
        None => forall|i: int| places.contains(i) ==> (#[trigger] rows[i]).low is None,
    }
}

/// Whether a figure is the open of the first of the rows at some places that has one.
pub open spec fn is_first_open(rows: Seq<Contribution>, places: Set<int>, open: Option<Key>) -> bool {
    match open {
        Some(_) => exists|i: int|
            {
                &&& places.contains(i)
                &&& (#[trigger] rows[i]).open == open
                &&& forall|j: int| places.contains(j) && j < i ==> (#[trigger] rows[j]).open is None
            },
        None => forall|i: int| places.contains(i) ==> (#[trigger] rows[i]).open is None,
    }
}

/// Whether a figure is the close of the last of the rows at some places that has one.
pub open spec fn is_last_close(rows: Seq<Contribution>, places: Set<int>, close: Option<Key>) -> bool {
    match close {
        Some(_) => exists|i: int|
            {
                &&& places.contains(i)
                &&& (#[trigger] rows[i]).close == close
                &&& forall|j: int| places.contains(j) && j > i ==> (#[trigger] rows[j]).close is None
            },
        None => forall|i: int| places.contains(i) ==> (#[trigger] rows[i]).close is None,
    }
}

/// The places of the first `hi` rows that fall into the bar that starts at an instant.
pub open spec fn places_in(rows: Seq<Contribution>, step: int, open_time: int, hi: int) -> Set<int> {
    Set::new(|i: int| 0 <= i < hi && open_time <= rows[i].ts < open_time + step)
}

proof fn lemma_falls_into(ts: int, step: int, t: int)
    requires
        step > 0,
        t % step == 0,
    ensures
        clock::floor_spec(ts, step) == t <==> t <= ts < t + step,
{
    clock::law_floor(ts, step);
    if t <= ts < t + step {
        vstd::arithmetic::div_mod::lemma_fundamental_div_mod(t, step);
        vstd::arithmetic::mul::lemma_mul_is_commutative(step, t / step);
        vstd::arithmetic::div_mod::lemma_fundamental_div_mod_converse(ts, step, t / step, ts - t);
    }
}

#[verifier::rlimit(40)]
#[verifier::spinoff_prover]
proof fn lemma_bar_prices(rows: Seq<Contribution>, step: int, t: i64, hi: int)
    requires
        0 <= hi <= rows.len(),
        step > 0,
        t as int % step == 0,
    ensures
        ({
            let bar = bar_at(rows, step, t, hi);
            let places = places_in(rows, step, t as int, hi);
            &&& is_top(rows, places, bar.high)
            &&& is_bottom(rows, places, bar.low)
            &&& is_first_open(rows, places, bar.open)
            &&& is_last_close(rows, places, bar.close)
            &&& forall|i: int| #[trigger] bar.parts.contains(i) <==> places.contains(i)
            &&& forall|a: int, b: int|
                0 <= a < b < bar.parts.len() ==> #[trigger] bar.parts[a] < #[trigger] bar.parts[b]
        }),
    decreases hi,
{
    let bar = bar_at(rows, step, t, hi);
    let places = places_in(rows, step, t as int, hi);
    if hi > 0 {
        lemma_bar_prices(rows, step, t, hi - 1);
        let rest = bar_at(rows, step, t, hi - 1);
        let before = places_in(rows, step, t as int, hi - 1);
        let c = rows[hi - 1];
        lemma_falls_into(c.ts as int, step, t as int);
        if t <= c.ts < t + step {
            assert(places =~= before.insert(hi - 1));
            assert(places.contains(hi - 1));
            assert forall|i: int| before.contains(i) implies places.contains(i) && i < hi - 1 by {}
            lemma_price_taken(rows, before, places, rest, bar, hi - 1);
            assert(bar.parts == rest.parts.push(hi - 1));
            assert forall|i: int| #[trigger] bar.parts.contains(i) <==> places.contains(i) by {
                if rest.parts.contains(i) {
                    let a = choose|a: int| 0 <= a < rest.parts.len() && rest.parts[a] == i;
                    assert(bar.parts[a] == i);
                }
                if i == hi - 1 {
                    assert(bar.parts[rest.parts.len() as int] == i);
                }
                if bar.parts.contains(i) && i != hi - 1 {
                    let a = choose|a: int| 0 <= a < bar.parts.len() && bar.parts[a] == i;
                    assert(rest.parts[a] == i);
                }
            }
            assert forall|a: int, b: int| 0 <= a < b < bar.parts.len() implies #[trigger] bar.parts[a]
                < #[trigger] bar.parts[b] by {
                assert(rest.parts.contains(rest.parts[a]));
                assert(before.contains(rest.parts[a]));
            }
        } else {
            assert(places =~= before);
        }
    } else {
        assert(places =~= Set::empty());
    }
}

proof fn lemma_price_taken(
    rows: Seq<Contribution>,
    before: Set<int>,
    places: Set<int>,
    rest: BarModel,
    bar: BarModel,
    k: int,
)
    requires
        is_top(rows, before, rest.high),
        is_bottom(rows, before, rest.low),
        is_first_open(rows, before, rest.open),
        is_last_close(rows, before, rest.close),
        places == before.insert(k),
        forall|i: int| before.contains(i) ==> i < k,
        bar == applied(rest, rows[k], k),
    ensures
        is_top(rows, places, bar.high),
        is_bottom(rows, places, bar.low),
        is_first_open(rows, places, bar.open),
        is_last_close(rows, places, bar.close),
{
    assert(places.contains(k));
    let c = rows[k];
    assert(is_top(rows, places, bar.high)) by {
        if rest.high is Some {
            let i = choose|i: int| before.contains(i) && (#[trigger] rows[i]).high == rest.high;
            assert(places.contains(i));
        }
    }
    assert(is_bottom(rows, places, bar.low)) by {
        if rest.low is Some {
            let i = choose|i: int| before.contains(i) && (#[trigger] rows[i]).low == rest.low;
            assert(places.contains(i));
        }
    }
    assert(is_first_open(rows, places, bar.open)) by {
        if rest.open is Some {
            let i = choose|i: int|
                {
                    &&& before.contains(i)
                    &&& (#[trigger] rows[i]).open == rest.open
                    &&& forall|j: int|
                        before.contains(j) && j < i ==> (#[trigger] rows[j]).open is None
                };
            assert(places.contains(i));
            assert(rows[i].open == bar.open);
        } else if c.open is Some {
            assert(rows[k].open == bar.open);
        }
    }
    assert(is_last_close(rows, places, bar.close)) by {
        if c.close is Some {
            assert(rows[k].close == bar.close);
        } else if rest.close is Some {
            let i = choose|i: int|
                {
                    &&& before.contains(i)
                    &&& (#[trigger] rows[i]).close == rest.close
                    &&& forall|j: int|
                        before.contains(j) && j > i ==> (#[trigger] rows[j]).close is None
                };
            assert(places.contains(i));
            assert(rows[i].close == bar.close);
        }
    }
}

/// The places that a bar was built from.
pub open spec fn parts_of(bar: AggregatedBar) -> Set<int> {
    Set::new(|i: int| 0 <= i <= usize::MAX && bar.parts@.contains(i as usize))
}

/// A bar is built from all rows that start within it, in order. Its high is the highest of
/// their highs and its low the lowest of their lows, each reached by one of them; it opens
/// with the first open among them and closes with the last close.
#[verifier::rlimit(40)]
#[verifier::spinoff_prover]
pub proof fn law_bars_span_their_rows(
    bars: Seq<AggregatedBar>,
    rows: Seq<Contribution>,
    interval_minutes: int,
    limit: int,
    current_minute_close: i64,
    a: int,
)
    requires
        interval_minutes > 0,
        rows.len() <= usize::MAX,
        are_last_bars(bars, rows, interval_minutes, limit, current_minute_close),
        0 <= a < bars.len(),
    ensures
        ({
            let bar = bars[a];
            let places = parts_of(bar);
            &&& forall|i: int| #[trigger]
                places.contains(i) <==> 0 <= i < rows.len() && bar.open_time <= rows[i].ts
                    < bar.close_time
            &&& forall|x: int, y: int|
                0 <= x < y < bar.parts@.len() ==> #[trigger] bar.parts@[x] < #[trigger] bar.parts@[y]
            &&& is_top(rows, places, bar.high)
            &&& is_bottom(rows, places, bar.low)
            &&& is_first_open(rows, places, bar.open)
            &&& is_last_close(rows, places, bar.close)
        }),
{
    let step = interval_minutes * MINUTE_US;
    let n = rows.len() as int;
    let all = choose|all: Seq<BarModel>|
        {
            &&& #[trigger] are_bars_of(all, rows, step, n)
            &&& bars.len() == if all.len() < limit {
                all.len() as int
            } else {
                limit
            }
            &&& forall|i: int|
                0 <= i < bars.len() ==> is_finished(
                    #[trigger] bars[i],
                    all[all.len() - bars.len() + i],
                    interval_minutes,
                    current_minute_close,
                )
        };
    let bar = bars[a];
    let model = all[all.len() - bars.len() + a];
    assert(is_finished(bar, model, interval_minutes, current_minute_close));
    let t = model.open_time;
    assert(model == bar_at(rows, step, t, n));
    assert(model.parts.len() > 0);
    assert(step > 0) by (nonlinear_arith)
        requires
            interval_minutes > 0,
            step == interval_minutes * MINUTE_US,
    ;
    lemma_open_is_multiple(rows, step, t, n);
    lemma_bar_prices(rows, step, t, n);
    let places = places_in(rows, step, t as int, n);
    let mapped = bar.parts@.map_values(|i: usize| i as int);
    assert(mapped == model.parts);
    assert(parts_of(bar) =~= places) by {
        assert forall|i: int| parts_of(bar).contains(i) <==> places.contains(i) by {
            if parts_of(bar).contains(i) {
                let x = choose|x: int| 0 <= x < bar.parts@.len() && bar.parts@[x] == i as usize;
                assert(mapped[x] == i);
                assert(model.parts.contains(i));
            }
            if places.contains(i) {
                assert(model.parts.contains(i));
                let x = choose|x: int| 0 <= x < mapped.len() && mapped[x] == i;
                assert(bar.parts@[x] == i as usize);
            }
        }
    }
    assert forall|x: int, y: int| 0 <= x < y < bar.parts@.len() implies #[trigger] bar.parts@[x]
        < #[trigger] bar.parts@[y] by {
        assert(model.parts[x] < model.parts[y]);
        assert(mapped[x] == bar.parts@[x] && mapped[y] == bar.parts@[y]);
    }
}

/// Bars of minutes. No minute that falls into a bar has a highest price above the high of the
/// bar or a lowest price below its low; where its minutes have both, some minute reaches the
/// high and some minute the low, and the high is no less than the low as long as that is so of
/// each minute.
pub proof fn law_bars_span_their_minutes(
    bars: Seq<AggregatedBar>,
    history: Seq<MinuteBar>,
    interval_minutes: i64,
    limit: int,
    current_minute_close: i64,
    a: int,
    i: int,
)
    requires
        interval_minutes >= 1,
        limit > 0,
        history.len() <= usize::MAX,
        forall|j: int|
            0 <= j < history.len() ==> clock::is_instant((#[trigger] history[j]).ts_bucket),
        are_interval_bars(bars, history, interval_minutes, limit, current_minute_close),
        0 <= a < bars.len(),
        0 <= i <= usize::MAX,
    ensures
        ({
            let bar = bars[a];
            let places = parts_of(bar);
            let all_have = forall|j: int|
                places.contains(j) ==> (#[trigger] history[j]).high_price is Some
                    && history[j].low_price is Some;
            &&& bar.parts@.contains(i as usize) ==> {
                &&& 0 <= i < history.len()
                &&& bar.open_time <= history[i].ts_bucket < bar.close_time
                &&& history[i].high_price is Some ==> bar.high is Some && history[i].high_price->0
                    <= bar.high->0
                &&& history[i].low_price is Some ==> bar.low is Some && bar.low->0
                    <= history[i].low_price->0
            }
            &&& interval_minutes > 1 && 0 <= i < history.len() && bar.open_time
                <= history[i].ts_bucket < bar.close_time ==> bar.parts@.contains(i as usize)
            &&& all_have ==> exists|j: int|
                places.contains(j) && (#[trigger] history[j]).high_price == bar.high
            &&& all_have ==> exists|j: int|
                places.contains(j) && (#[trigger] history[j]).low_price == bar.low
            &&& all_have && (forall|j: int|
                places.contains(j) ==> (#[trigger] history[j]).low_price->0
                    <= history[j].high_price->0) ==> bar.low->0 <= bar.high->0
        }),
{
    let bar = bars[a];
    let places = parts_of(bar);
    if interval_minutes == 1 {
        let k = history.len() - bars.len() + a;
        assert(is_minute_bar(bar, of_minute(history[k]), k));
        assert(bar.parts@[0] == k as usize);
        assert(places.contains(k));
        assert(clock::is_instant(history[k].ts_bucket));
        if bar.parts@.contains(i as usize) {
            let x = choose|x: int| 0 <= x < bar.parts@.len() && bar.parts@[x] == i as usize;
            assert(i == k);
        }
        assert(of_minute(history[k]).ts == history[k].ts_bucket);
    } else {
        let rows = of_minutes(history);
        law_bars_span_their_rows(
            bars,
            rows,
            interval_minutes as int,
            limit,
            current_minute_close,
            a,
        );
        assert(places.contains(i) <==> bar.parts@.contains(i as usize));
        assert forall|j: int| 0 <= j < history.len() implies (#[trigger] rows[j]) == of_minute(
            history[j],
        ) by {}
        if places.contains(i) {
            assert(rows[i] == of_minute(history[i]));
        }
        if 0 <= i < history.len() {
            assert(rows[i].ts == history[i].ts_bucket);
        }
        if forall|j: int|
            places.contains(j) ==> (#[trigger] history[j]).high_price is Some
                && history[j].low_price is Some {
            lemma_some_part(bars, rows, interval_minutes as int, limit, current_minute_close, a);
            let first = bar.parts@[0] as int;
            assert(bar.parts@.contains(bar.parts@[0]));
            assert(places.contains(first));
            assert(history[first].high_price is Some);
            assert(rows[first] == of_minute(history[first]));
            let top = choose|j: int| places.contains(j) && (#[trigger] rows[j]).high == bar.high;
            assert(rows[top] == of_minute(history[top]));
            assert(history[top].high_price is Some);
            assert(history[top].high_price == bar.high);
            let low = choose|j: int| places.contains(j) && (#[trigger] rows[j]).low == bar.low;
            assert(rows[low] == of_minute(history[low]));
            assert(history[low].high_price is Some);
            assert(history[low].low_price == bar.low);
        }
    }
}

proof fn lemma_some_part(
    bars: Seq<AggregatedBar>,
    rows: Seq<Contribution>,
    interval_minutes: int,
    limit: int,
    current_minute_close: i64,
    a: int,
)
    requires
        are_last_bars(bars, rows, interval_minutes, limit, current_minute_close),
        0 <= a < bars.len(),
    ensures
        bars[a].parts@.len() > 0,
{
    let step = interval_minutes * MINUTE_US;
    let n = rows.len() as int;
    let all = choose|all: Seq<BarModel>|
        {
            &&& #[trigger] are_bars_of(all, rows, step, n)
            &&& bars.len() == if all.len() < limit {
                all.len() as int
            } else {
                limit
            }
            &&& forall|i: int|
                0 <= i < bars.len() ==> is_finished(
                    #[trigger] bars[i],
                    all[all.len() - bars.len() + i],
                    interval_minutes,
                    current_minute_close,
                )
        };
    let model = all[all.len() - bars.len() + a];
    assert(is_finished(bars[a], model, interval_minutes, current_minute_close));
    assert(model.parts.len() > 0);
    assert(bars[a].parts@.map_values(|i: usize| i as int).len() == bars[a].parts@.len());
}

/// Every interval is as long as its name says.
pub proof fn law_intervals_are_named(i: int)
    requires
        0 <= i < 7,
    ensures
        clock::named_minutes(spec_intervals()[i].0) == spec_intervals()[i].1,
{
    clock::lemma_named_minutes();
}

/// A bar is over exactly where it ended by then and as many minutes of it were seen as it has,
/// one at least.
pub proof fn law_bar_is_over(
    close_time: int,
    current_minute_close: i64,
    minutes_covered: int,
    expected_minutes: int,
)
    ensures
        closed_by(close_time, current_minute_close, minutes_covered, expected_minutes)
            <==> close_time <= current_minute_close && minutes_covered >= expected_minutes
            && minutes_covered >= 1,
{
}

/// The high of two bars is no lower than either, their low no higher, and each is that of one
/// of them; they open where the earlier opens and close where the later closes.
pub proof fn law_two_bars(earlier: KlineHistoryBar, later: KlineHistoryBar)
    ensures
        ({
            let high = higher_of(earlier.high, later.high);
            let low = lower_of(earlier.low, later.low);
            let open = or_key(earlier.open, later.open);
            let close = or_key(later.close, earlier.close);
            &&& high == earlier.high || high == later.high
            &&& low == earlier.low || low == later.low
            &&& earlier.high matches Some(k) ==> high is Some && k <= high->0
            &&& later.high matches Some(k) ==> high is Some && k <= high->0
            &&& earlier.low matches Some(k) ==> low is Some && low->0 <= k
            &&& later.low matches Some(k) ==> low is Some && low->0 <= k
            &&& earlier.open is Some ==> open == earlier.open
            &&& earlier.open is None ==> open == later.open
            &&& later.close is Some ==> close == later.close
            &&& later.close is None ==> close == earlier.close
        }),
{
}

/// A bar keeps all it says where its volumes are added to it.
pub proof fn law_weighed(bar: AggregatedBar, base: Key, quote: Key)
    ensures
        ({
            let out = bar.weighed((base, quote));
            &&& out.open_time == bar.open_time && out.close_time == bar.close_time
            &&& out.open == bar.open && out.close == bar.close
            &&& out.high == bar.high && out.low == bar.low
            &&& out.volume_base == base && out.volume_quote == quote
            &&& out.is_closed == bar.is_closed
            &&& out.minutes_covered == bar.minutes_covered
            &&& out.expected_minutes == bar.expected_minutes
        }),
{
}

/// Bars of one minute are the last minutes of a history, in order, each over and whole.
pub proof fn law_bars_of_one_minute(
    bars: Seq<AggregatedBar>,
    history: Seq<MinuteBar>,
    limit: int,
    current_minute_close: i64,
    i: int,
)
    requires
        are_interval_bars(bars, history, 1, limit, current_minute_close),
        limit >= 0,
        0 <= i < bars.len(),
    ensures
        bars.len() <= limit,
        bars.len() == limit || bars.len() == history.len(),
        bars.len() <= history.len(),
        ({
            let minute = history[history.len() - bars.len() + i];
            &&& bars[i].open_time == minute.ts_bucket
            &&& bars[i].close_time == minute.ts_bucket + 60_000_000
            &&& bars[i].is_closed && bars[i].minutes_covered == 1 && bars[i].expected_minutes == 1
            &&& minute.open_price is Some ==> bars[i].open == minute.open_price
            &&& minute.high_price is Some ==> bars[i].high == minute.high_price
            &&& minute.low_price is Some ==> bars[i].low == minute.low_price
            &&& minute.close_price is Some ==> bars[i].close == minute.close_price
        }),
{
    assert(is_minute_bar(
        bars[i],
        of_minute(history[history.len() - bars.len() + i]),
        history.len() - bars.len() + i,
    ));
}

/// Whether a bar has a price of any kind.
pub open spec fn knows_a_price(bar: KlineHistoryBar) -> bool {
    !(bar.open is None && bar.high is None && bar.low is None && bar.close is None)
}

/// Whether as many minutes of a bar were seen as it has, one at least.
pub open spec fn saw_all(bar: KlineHistoryBar) -> bool {
    bar.minutes_covered >= 1 && bar.minutes_covered >= bar.expected_minutes
}

/// A new bar takes the place of what the merge holds for its start, unless that has a price and
/// saw all its minutes where the new one did not, or saw more minutes. For other starts
/// nothing changes.
pub proof fn law_new_bar_is_merged(
    stored: Seq<KlineHistoryBar>,
    new: Seq<KlineHistoryBar>,
    bar: KlineHistoryBar,
    t: i64,
)
    ensures
        ({
            let before = merge_of(stored, new)(t);
            let after = merge_of(stored, new.push(bar))(t);
            let stays = knows_a_price(before->0) && ((saw_all(before->0) && !saw_all(bar))
                || before->0.minutes_covered > bar.minutes_covered);
            &&& bar.open_time != t ==> after == before
            &&& bar.open_time == t && before is Some && stays ==> after == before
            &&& bar.open_time == t && (before is None || !stays) ==> after == Some(bar)
        }),
{
    let all = new.push(bar);
    lemma_merged_prefix(stored_at(stored, t, stored.len() as int), new, bar, t, new.len() as int);
    assert(all[new.len() as int] == bar);
}

proof fn lemma_merged_prefix(
    was: Option<KlineHistoryBar>,
    new: Seq<KlineHistoryBar>,
    bar: KlineHistoryBar,
    t: i64,
    hi: int,
)
    requires
        0 <= hi <= new.len(),
    ensures
        merged_at(was, new.push(bar), t, hi) == merged_at(was, new, t, hi),
    decreases hi,
{
    if hi > 0 {
        lemma_merged_prefix(was, new, bar, t, hi - 1);
        assert(new.push(bar)[hi - 1] == new[hi - 1]);
    }
}

/// Where nothing new starts at an instant, the merge holds for it the last stored bar that
/// does, and none where none does.
pub proof fn law_stored_bars_stay(stored: Seq<KlineHistoryBar>, t: i64, j: int)
    requires
        0 <= j < stored.len(),
    ensures
        ({
            let held = merge_of(stored, Seq::empty())(t);
            &&& stored[j].open_time == t ==> held is Some
            &&& held matches Some(bar) ==> bar.open_time == t && exists|k: int|
                0 <= k < stored.len() && #[trigger] stored[k] == bar && (forall|l: int|
                    k < l < stored.len() ==> (#[trigger] stored[l]).open_time != t)
        }),
{
    lemma_stored_at(stored, t, stored.len() as int);
}

proof fn lemma_stored_at(stored: Seq<KlineHistoryBar>, t: i64, hi: int)
    requires
        0 <= hi <= stored.len(),
    ensures
        match stored_at(stored, t, hi) {
            None => forall|j: int| 0 <= j < hi ==> (#[trigger] stored[j]).open_time != t,
            Some(bar) => bar.open_time == t && exists|k: int|
                0 <= k < hi && #[trigger] stored[k] == bar && (forall|l: int|
                    k < l < hi ==> (#[trigger] stored[l]).open_time != t),
        },
    decreases hi,
{
    if hi > 0 {
        if stored[hi - 1].open_time == t {
            assert(stored[hi - 1] == stored_at(stored, t, hi)->0);
        } else {
            lemma_stored_at(stored, t, hi - 1);
            if stored_at(stored, t, hi - 1) is Some {
                let bar = stored_at(stored, t, hi - 1)->0;
                let k = choose|k: int|
                    0 <= k < hi - 1 && #[trigger] stored[k] == bar && (forall|l: int|
                        k < l < hi - 1 ==> (#[trigger] stored[l]).open_time != t);
                assert(stored[k] == bar);
            }
        }
    }
}

/// A merge lists its bars in the order of their starts, one for each start that it holds a bar
/// for.
pub proof fn law_merge_is_listed(
    bars: Seq<KlineHistoryBar>,
    stored: Seq<KlineHistoryBar>,
    new: Seq<KlineHistoryBar>,
    a: int,
    b: int,
    t: i64,
)
    requires
        lists(bars, merge_of(stored, new)),
        0 <= a < b < bars.len(),
    ensures
        bars[a].open_time < bars[b].open_time,
        merge_of(stored, new)(bars[a].open_time) == Some(bars[a]),
        merge_of(stored, new)(bars[b].open_time) == Some(bars[b]),
        merge_of(stored, new)(t) is Some ==> exists|k: int|
            0 <= k < bars.len() && #[trigger] bars[k] == merge_of(stored, new)(t)->0,
{
    let at = merge_of(stored, new);
    assert(at(bars[a].open_time) == Some(bars[a]));
    assert(at(bars[b].open_time) == Some(bars[b]));
    if at(t) is Some {
        assert(holds_start(bars, t));
        let k = choose|k: int| 0 <= k < bars.len() && (#[trigger] bars[k]).open_time == t;
        assert(at(bars[k].open_time) == Some(bars[k]));
        assert(bars[k] == at(t)->0);
    }
}

/// The last bars of a list are as many as the limit allows, and they are its end.
pub proof fn law_last_of(all: Seq<KlineHistoryBar>, limit: int, i: int)
    requires
        limit >= 0,
    ensures
        last_of(all, limit).len() <= limit,
        last_of(all, limit).len() == limit || last_of(all, limit) == all,
        0 <= i < last_of(all, limit).len() ==> last_of(all, limit)[last_of(all, limit).len() - 1
            - i] == all[all.len() - 1 - i],
        last_of(all, limit).len() <= all.len(),
{
    if all.len() < limit {
        assert(last_of(all, limit) =~= all);
    }
}

/// A market without minutes reports, for four hours and where that is switched on for one day,
/// the last of its stored bars of that length, and nothing for the other intervals up to a day.
pub proof fn law_market_without_minutes(
    out: Option<Seq<KlineHistoryBar>>,
    market: MarketHistory<'_>,
    interval_minutes: i64,
    limit: int,
    fill_1d_from_db: bool,
    current_minute_close: i64,
    gauge: VolumeGauge,
    sum_gauge: SumGauge,
    i: int,
)
    requires
        are_market_bars(
            out,
            market,
            interval_minutes,
            limit,
            fill_1d_from_db,
            current_minute_close,
            gauge,
            sum_gauge,
        ),
        market.history@.len() == 0,
        0 < interval_minutes <= 1440,
        limit >= 0,
    ensures
        out is Some,
        interval_minutes != 240 && !(interval_minutes == 1440 && fill_1d_from_db)
            ==> out->0.len() == 0,
        interval_minutes == 240 && 0 <= i < market.stored_4h@.len() && out->0.len() < limit
            ==> holds_start(out->0, market.stored_4h@[i].open_time),
        interval_minutes == 240 && 0 <= i < out->0.len() ==> market.stored_4h@.contains(out->0[i]),
        interval_minutes == 1440 && fill_1d_from_db && 0 <= i < market.stored_1d@.len()
            && out->0.len() < limit ==> holds_start(out->0, market.stored_1d@[i].open_time),
        interval_minutes == 1440 && fill_1d_from_db && 0 <= i < out->0.len()
            ==> market.stored_1d@.contains(out->0[i]),
{
    let minute_bars = choose|minute_bars: Seq<KlineHistoryBar>| #[trigger]
        are_minute_bars(
            minute_bars,
            market.history@,
            interval_minutes,
            current_minute_close,
            gauge,
        ) && are_last_listed(
            out->0,
            limit,
            interval_minutes == 240 || (interval_minutes == DAY_MINUTES && fill_1d_from_db),
            if interval_minutes == DAY_MINUTES {
                market.stored_1d@
            } else {
                market.stored_4h@
            },
            minute_bars,
        );
    assert(minute_bars =~= Seq::empty());
    let merged = interval_minutes == 240 || (interval_minutes == DAY_MINUTES && fill_1d_from_db);
    let stored = if interval_minutes == DAY_MINUTES {
        market.stored_1d@
    } else {
        market.stored_4h@
    };
    let all = choose|all: Seq<KlineHistoryBar>|
        #[trigger] is_listed(all, merged, stored, minute_bars) && out->0 == last_of(all, limit);
    law_last_of(all, limit, i);
    if merged {
        let at = merge_of(stored, minute_bars);
        if 0 <= i < stored.len() && out->0.len() < limit {
            let t = stored[i].open_time;
            law_stored_bars_stay(stored, t, i);
            assert(at(t) is Some);
            assert(holds_start(all, t));
        }
        if 0 <= i < out->0.len() {
            let k = all.len() - out->0.len() + i;
            assert(out->0[i] == all[k]);
            assert(at(all[k].open_time) == Some(all[k]));
            lemma_stored_at(stored, all[k].open_time, stored.len() as int);
        }
    }
}

} // verus!
