//! Instants, minutes and the intervals that bars are cut along.

use vstd::prelude::*;

verus! {

/// Microseconds in one second.
pub const SECOND_US: i64 = 1_000_000;

/// Microseconds in one minute.
pub const MINUTE_US: i64 = 60_000_000;

/// Microseconds in one day.
pub const DAY_US: i64 = 86_400_000_000;

/// No instant is farther than this from the epoch; every date the calendar can
/// name is nearer.
pub const INSTANT_LIMIT_US: i64 = 8_400_000_000_000_000_000;

/// No window is longer than this many minutes: by no more than that can every instant be
/// shifted within the range of the machine's integers.
pub const WINDOW_LIMIT_MINUTES: i64 = 13_700_000_000;

/// No calendar date is farther than this from the epoch, and sixty days on either side of
/// it there are still instants.
pub const DATE_LIMIT_US: i64 = 8_390_000_000_000_000_000;

/// An instant that the calendar can name.
pub open spec fn is_instant(ts: i64) -> bool {
    -INSTANT_LIMIT_US <= ts <= INSTANT_LIMIT_US
}

/// The whole minutes in a span, rounded towards zero.
pub open spec fn whole_minutes(span: int) -> int {
    if span >= 0 {
        span / (MINUTE_US as int)
    } else {
        -((-span) / (MINUTE_US as int))
    }
}

/// The whole minutes from one instant to another, rounded towards zero.
pub fn minutes_between(from: i64, to: i64) -> (out: i64)
    requires
        is_instant(from),
        is_instant(to),
    ensures
        out == whole_minutes(to - from),
{
    let span: i128 = to as i128 - from as i128;
    if span >= 0 {
        (span / 60_000_000) as i64
    } else {
        -(((-span) / 60_000_000) as i64)
    }
}

/// The last multiple of `step` that is not after an instant.
pub open spec fn floor_spec(ts: int, step: int) -> int {
    ts / step * step
}

/// The last multiple of `step` that is not after an instant.
pub fn floor_to(ts: i64, step: i64) -> (out: i64)
    requires
        is_instant(ts),
        0 < step <= WINDOW_LIMIT_MINUTES * MINUTE_US,
    ensures
        out == floor_spec(ts as int, step as int),
        out <= ts < out + step,
{
    if ts >= 0 {
        let rest: i64 = ts % step;
        proof {
            vstd::arithmetic::div_mod::lemma_fundamental_div_mod(ts as int, step as int);
            vstd::arithmetic::mul::lemma_mul_is_commutative(
                step as int,
                ts as int / step as int,
            );
        }
        ts - rest
    } else {
        let rest: i64 = (-ts) % step;
        let out: i64 = if rest == 0 {
            ts
        } else {
            ts - (step - rest)
        };
        proof {
            let q = (-ts) / (step as int);
            vstd::arithmetic::div_mod::lemma_fundamental_div_mod(-ts, step as int);
            if rest == 0 {
                assert((-q) * step == -(step * q)) by (nonlinear_arith);
                vstd::arithmetic::div_mod::lemma_fundamental_div_mod_converse(
                    ts as int,
                    step as int,
                    -q,
                    0,
                );
            } else {
                assert((-q - 1) * step == -(step * q) - step) by (nonlinear_arith);
                vstd::arithmetic::div_mod::lemma_fundamental_div_mod_converse(
                    ts as int,
                    step as int,
                    -q - 1,
                    step - rest,
                );
            }
        }
        out
    }
}

/// Whether an instant is a multiple of `step`.
pub open spec fn on_step(ts: int, step: int) -> bool {
    ts % step == 0
}

/// Whether an instant is a multiple of `step`.
pub fn is_on_step(ts: i64, step: i64) -> (out: bool)
    requires
        is_instant(ts),
        0 < step <= WINDOW_LIMIT_MINUTES * MINUTE_US,
    ensures
        out == on_step(ts as int, step as int),
{
    let floor: i64 = floor_to(ts, step);
    proof {
        vstd::arithmetic::div_mod::lemma_fundamental_div_mod(ts as int, step as int);
        vstd::arithmetic::mul::lemma_mul_is_commutative(step as int, ts as int / step as int);
    }
    floor == ts
}

/// The first multiple of `step` that is not before an instant.
pub open spec fn ceil_spec(ts: int, step: int) -> int {
    if ts % step == 0 {
        ts
    } else {
        floor_spec(ts, step) + step
    }
}

/// The first multiple of `step` that is not before an instant.
pub fn ceil_to(ts: i64, step: i64) -> (out: i64)
    requires
        is_instant(ts),
        0 < step <= WINDOW_LIMIT_MINUTES * MINUTE_US,
    ensures
        out == ceil_spec(ts as int, step as int),
        out - step < ts <= out,
{
    let floor: i64 = floor_to(ts, step);
    proof {
        vstd::arithmetic::div_mod::lemma_fundamental_div_mod(ts as int, step as int);
        vstd::arithmetic::mul::lemma_mul_is_commutative(step as int, ts as int / step as int);
    }
    if floor == ts {
        ts
    } else {
        floor + step
    }
}

/// Flooring twice is flooring once, and a floor is a multiple of the step.
pub proof fn law_floor(ts: int, step: int)
    requires
        step > 0,
    ensures
        on_step(floor_spec(ts, step), step),
        floor_spec(floor_spec(ts, step), step) == floor_spec(ts, step),
        floor_spec(ts, step) <= ts < floor_spec(ts, step) + step,
{
    let q = ts / step;
    vstd::arithmetic::div_mod::lemma_fundamental_div_mod(ts, step);
    vstd::arithmetic::mul::lemma_mul_is_commutative(step, q);
    vstd::arithmetic::div_mod::lemma_fundamental_div_mod_converse(q * step, step, q, 0);
}

/// The first instant of the year 0.
pub const YEAR_0_US: i64 = -62_167_219_200_000_000;

/// The first instant of the year 10000.
pub const YEAR_10000_US: i64 = 253_402_300_800_000_000;

/// An instant of a year with no more than four digits.
pub open spec fn has_four_digit_year(ts: i64) -> bool {
    YEAR_0_US <= ts < YEAR_10000_US
}

/// The RFC 3339 text of an instant, in UTC; nothing for an instant beyond what a
/// calendar date can be given for.
pub uninterp spec fn rfc3339(ts: i64) -> Option<Seq<char>>;

/// The instant of an RFC 3339 text, to the microsecond; nothing for any other text.
pub uninterp spec fn rfc3339_instant(t: Seq<char>) -> Option<i64>;

/// `chrono::DateTime::from_timestamp_micros`, and `to_rfc3339` of what it gives. In the
/// years that RFC 3339 has room for, every instant has a text, and
/// `chrono::DateTime::parse_from_rfc3339` gives that instant back.
#[verifier::external_body]
pub(crate) fn rfc3339_text(ts: i64) -> (out: Option<String>)
    ensures
        (out is Some) == (rfc3339(ts) is Some),
        out matches Some(t) ==> rfc3339(ts) == Some(t@),
        has_four_digit_year(ts) ==> out is Some,
        out matches Some(t) ==> (has_four_digit_year(ts) ==> rfc3339_instant(t@) == Some(ts)),
{
    let at = chrono::DateTime::<chrono::Utc>::from_timestamp_micros(ts)?;
    Some(at.to_rfc3339())
}

/// The text that `chrono` displays an instant as, in UTC; nothing for an instant beyond what
/// a calendar date can be given for.
pub uninterp spec fn utc_display(ts: i64) -> Option<Seq<char>>;

/// `chrono::DateTime::from_timestamp_micros`, and what it gives as it is displayed.
#[verifier::external_body]
pub(crate) fn utc_text(ts: i64) -> (out: Option<String>)
    ensures
        (out is Some) == (utc_display(ts) is Some),
        out matches Some(t) ==> utc_display(ts) == Some(t@),
{
    let at = chrono::DateTime::<chrono::Utc>::from_timestamp_micros(ts)?;
    Some(at.to_string())
}

/// `chrono::DateTime::parse_from_rfc3339`, and `timestamp_micros` of what it gives.
#[verifier::external_body]
pub(crate) fn parse_rfc3339(t: &str) -> (out: Option<i64>)
    ensures
        out == rfc3339_instant(t@),
{
    Some(chrono::DateTime::parse_from_rfc3339(t).ok()?.timestamp_micros())
}

/// The number that digits write.
pub open spec fn number_of(digits: Seq<char>) -> int
    decreases digits.len(),
{
    if digits.len() == 0 {
        0
    } else {
        10 * number_of(digits.drop_last()) + (digits.last() as int - '0' as int)
    }
}

/// The minutes that a name of a window speaks of: a number of minutes, hours or days.
pub open spec fn named_minutes(name: Seq<char>) -> int {
    let number = number_of(name.drop_last());
    if name.last() == 'd' {
        number * 24 * 60
    } else if name.last() == 'h' {
        number * 60
    } else {
        number
    }
}

/// The minutes that the names of all windows speak of.
pub proof fn lemma_named_minutes()
    ensures
        named_minutes("1m"@) == 1,
        named_minutes("5m"@) == 5,
        named_minutes("15m"@) == 15,
        named_minutes("1h"@) == 60,
        named_minutes("4h"@) == 4 * 60,
        named_minutes("1d"@) == 24 * 60,
        named_minutes("3d"@) == 3 * 24 * 60,
        named_minutes("7d"@) == 7 * 24 * 60,
        named_minutes("30d"@) == 30 * 24 * 60,
{
    reveal_strlit("1m");
    reveal_strlit("5m");
    reveal_strlit("15m");
    reveal_strlit("1h");
    reveal_strlit("4h");
    reveal_strlit("1d");
    reveal_strlit("3d");
    reveal_strlit("7d");
    reveal_strlit("30d");
    reveal_with_fuel(number_of, 3);
    assert("1m"@.drop_last() =~= seq!['1']);
    assert("5m"@.drop_last() =~= seq!['5']);
    assert("15m"@.drop_last() =~= seq!['1', '5']);
    assert("1h"@.drop_last() =~= seq!['1']);
    assert("4h"@.drop_last() =~= seq!['4']);
    assert("1d"@.drop_last() =~= seq!['1']);
    assert("3d"@.drop_last() =~= seq!['3']);
    assert("7d"@.drop_last() =~= seq!['7']);
    assert("30d"@.drop_last() =~= seq!['3', '0']);
    assert(seq!['1', '5'].drop_last() =~= seq!['1']);
    assert(seq!['3', '0'].drop_last() =~= seq!['3']);
}

/// The whole minutes of a span are the most that fit into it.
pub proof fn law_whole_minutes(span: int)
    ensures
        span >= 0 ==> whole_minutes(span) * 60_000_000 <= span < (whole_minutes(span) + 1)
            * 60_000_000,
        whole_minutes(-span) == -whole_minutes(span),
{
}

/// The ceiling of an instant is the first multiple of the step that is not before it.
pub proof fn law_ceil(ts: int, step: int, other: int)
    requires
        step > 0,
    ensures
        ceil_spec(ts, step) % step == 0,
        ceil_spec(ts, step) - step < ts <= ceil_spec(ts, step),
        other % step == 0 && other >= ts ==> other >= ceil_spec(ts, step),
        other % step == 0 && other <= ts ==> other <= floor_spec(ts, step),
{
    law_floor(ts, step);
    let floor = floor_spec(ts, step);
    vstd::arithmetic::div_mod::lemma_fundamental_div_mod(ts, step);
    vstd::arithmetic::mul::lemma_mul_is_commutative(step, ts / step);
    vstd::arithmetic::div_mod::lemma_mod_add_multiples_vanish(floor, step);
    if other % step == 0 {
        vstd::arithmetic::div_mod::lemma_fundamental_div_mod(other, step);
        let p = other / step;
        let q = ts / step;
        let r = ts % step;
        assert(0 <= r < step) by {
            vstd::arithmetic::div_mod::lemma_mod_bound(ts, step);
        }
        assert(other >= ts ==> other >= q * step && (r > 0 ==> other >= q * step + step))
            by (nonlinear_arith)
            requires
                other == step * p,
                ts == step * q + r,
                0 <= r < step,
        ;
        assert(other <= ts ==> other <= q * step) by (nonlinear_arith)
            requires
                other == step * p,
                ts == step * q + r,
                0 <= r < step,
        ;
    }
}

} // verus!
