//! Real numbers by their place in the order of doubles.

#[allow(unused_imports)]
use vstd::arithmetic::power2;
use vstd::prelude::*;

verus! {

/// The place of a double in the order of all doubles. The key of a number with a
/// clear sign bit is its bit pattern; a set sign bit negates the key of the rest.
/// So both zeroes have key 0, negating a number negates its key, and one number
/// is below another exactly when its key is. A number that is not comparable has
/// no key.
pub type Key = i64;

/// The key of positive infinity; its negation is the key of negative infinity.
pub const KEY_INFINITY: i64 = 0x7FF0_0000_0000_0000;

/// The bit that holds the sign in the bit pattern of a double.
pub const SIGN_BIT: u64 = 0x8000_0000_0000_0000;

/// The key that belongs to a bit pattern.
pub open spec fn key_of_bits(bits: u64) -> int {
    if bits < SIGN_BIT {
        bits as int
    } else {
        SIGN_BIT - bits
    }
}

/// Whether a bit pattern is that of a number or an infinity, which compare with each
/// other; the other patterns compare with nothing.
pub open spec fn compares(bits: u64) -> bool {
    -KEY_INFINITY <= key_of_bits(bits) <= KEY_INFINITY
}

/// Whether a bit pattern is that of a number or an infinity.
pub fn is_comparable(bits: u64) -> (out: bool)
    ensures
        out == compares(bits),
{
    let key: Key = order_key(bits);
    -KEY_INFINITY <= key && key <= KEY_INFINITY
}

/// The sign of a double by its bit pattern, zero included: 1 or -1; 0 for a pattern that
/// compares with nothing.
pub open spec fn sign(bits: u64) -> i16 {
    if !compares(bits) {
        0
    } else if bits < SIGN_BIT {
        1
    } else {
        (-1) as i16
    }
}

/// The sign of a double by its bit pattern.
pub fn sign_of(bits: u64) -> (out: i16)
    ensures
        out == sign(bits),
{
    if !is_comparable(bits) {
        0
    } else if bits < SIGN_BIT {
        1
    } else {
        -1
    }
}

/// Whether a double, given by its bit pattern, is the one with the key `limit` or more.
pub open spec fn is_no_less(bits: u64, limit: int) -> bool {
    compares(bits) && key_of_bits(bits) >= limit
}

/// Whether a double, given by its bit pattern, is the one with the key `limit` or less.
pub open spec fn is_no_more(bits: u64, limit: int) -> bool {
    compares(bits) && key_of_bits(bits) <= limit
}

/// Whether a double is the one with the key `limit` or more.
pub fn no_less(bits: u64, limit: Key) -> (out: bool)
    ensures
        out == is_no_less(bits, limit as int),
{
    is_comparable(bits) && order_key(bits) >= limit
}

/// Whether a double is the one with the key `limit` or less.
pub fn no_more(bits: u64, limit: Key) -> (out: bool)
    ensures
        out == is_no_more(bits, limit as int),
{
    is_comparable(bits) && order_key(bits) <= limit
}

/// Between the keys of a double and of its half, as long as the half is no smaller than the
/// least double of full precision: halving lowers the exponent by one.
pub const KEY_HALVING: i64 = 0x0010_0000_0000_0000;

/// The key of half a double that is large enough to be halved exactly.
pub open spec fn half(key: Key) -> Key {
    if key >= KEY_INFINITY {
        key
    } else {
        (key - KEY_HALVING) as i64
    }
}

/// The key of half a double.
pub fn half_key(key: Key) -> (out: Key)
    requires
        key >= 2 * KEY_HALVING,
    ensures
        out == half(key),
{
    if key >= KEY_INFINITY {
        key
    } else {
        key - KEY_HALVING
    }
}

/// The key of the double with the given bit pattern.
pub fn order_key(bits: u64) -> (key: Key)
    ensures
        key == key_of_bits(bits),
{
    if bits < SIGN_BIT {
        bits as i64
    } else {
        -((bits - SIGN_BIT) as i64)
    }
}

/// A bit pattern with the given key; zero comes back with a clear sign bit.
pub fn key_bits(key: Key) -> (bits: u64)
    requires
        key > i64::MIN,
    ensures
        key_of_bits(bits) == key,
        key >= 0 ==> bits == key,
{
    if key >= 0 {
        key as u64
    } else {
        SIGN_BIT + ((-key) as u64)
    }
}

/// The lower of two keys.
pub open spec fn lower(a: Key, b: Key) -> Key {
    if b < a {
        b
    } else {
        a
    }
}

/// The upper of two keys.
pub open spec fn upper(a: Key, b: Key) -> Key {
    if a < b {
        b
    } else {
        a
    }
}

/// The lower of two keys.
pub fn lower_key(a: Key, b: Key) -> (out: Key)
    ensures
        out == lower(a, b),
{
    if b < a {
        b
    } else {
        a
    }
}

/// The upper of two keys.
pub fn upper_key(a: Key, b: Key) -> (out: Key)
    ensures
        out == upper(a, b),
{
    if a < b {
        b
    } else {
        a
    }
}

/// The lowest of a run of keys; positive infinity for an empty run.
pub open spec fn lowest(keys: Seq<Key>) -> Key
    decreases keys.len(),
{
    if keys.len() == 0 {
        KEY_INFINITY
    } else {
        lower(lowest(keys.drop_last()), keys.last())
    }
}

/// The highest of a run of keys; negative infinity for an empty run.
pub open spec fn highest(keys: Seq<Key>) -> Key
    decreases keys.len(),
{
    if keys.len() == 0 {
        (-KEY_INFINITY) as i64
    } else {
        upper(highest(keys.drop_last()), keys.last())
    }
}

/// The key of one price tick, a hundredth.
pub const KEY_ONE_TICK: i64 = 0x3F84_7AE1_47AE_147B;

/// The key of two price ticks.
pub const KEY_TWO_TICKS: i64 = 0x3F94_7AE1_47AE_147B;

/// A number that is comparable has a key between the two infinities.
pub open spec fn is_key(key: Key) -> bool {
    -KEY_INFINITY <= key <= KEY_INFINITY
}

/// The lowest of a run is one of its keys and bounds them all from below.
pub proof fn lemma_lowest(keys: Seq<Key>)
    requires
        forall|i: int| 0 <= i < keys.len() ==> is_key(#[trigger] keys[i]),
    ensures
        forall|i: int| 0 <= i < keys.len() ==> lowest(keys) <= #[trigger] keys[i],
        keys.len() > 0 ==> keys.contains(lowest(keys)),
        is_key(lowest(keys)),
    decreases keys.len(),
{
    if keys.len() > 0 {
        let rest = keys.drop_last();
        lemma_lowest(rest);
        assert forall|i: int| 0 <= i < keys.len() implies lowest(keys) <= #[trigger] keys[i] by {
            if i < rest.len() {
                assert(rest[i] == keys[i]);
            }
        }
        if lowest(keys) == keys.last() {
            assert(keys[keys.len() - 1] == keys.last());
        } else {
            assert(lowest(keys) == lowest(rest));
            assert(rest.len() > 0 || lowest(rest) == KEY_INFINITY);
            if rest.len() > 0 {
                let j = choose|j: int| 0 <= j < rest.len() && rest[j] == lowest(rest);
                assert(keys[j] == lowest(keys));
            }
        }
    }
}

/// The highest of a run is one of its keys and bounds them all from above.
pub proof fn lemma_highest(keys: Seq<Key>)
    requires
        forall|i: int| 0 <= i < keys.len() ==> is_key(#[trigger] keys[i]),
    ensures
        forall|i: int| 0 <= i < keys.len() ==> #[trigger] keys[i] <= highest(keys),
        keys.len() > 0 ==> keys.contains(highest(keys)),
        is_key(highest(keys)),
    decreases keys.len(),
{
    if keys.len() > 0 {
        let rest = keys.drop_last();
        lemma_highest(rest);
        assert forall|i: int| 0 <= i < keys.len() implies #[trigger] keys[i] <= highest(keys) by {
            if i < rest.len() {
                assert(rest[i] == keys[i]);
            }
        }
        if highest(keys) == keys.last() {
            assert(keys[keys.len() - 1] == keys.last());
        } else {
            if rest.len() > 0 {
                let j = choose|j: int| 0 <= j < rest.len() && rest[j] == highest(rest);
                assert(keys[j] == highest(keys));
            }
        }
    }
}

/// A price together with the prices one and two ticks away from it.
#[derive(Clone, Copy, Debug, PartialEq, Eq, Structural)]
pub struct Price {
    /// The price itself.
    pub at: Key,
    /// One tick above.
    pub up_one: Key,
    /// One tick below.
    pub down_one: Key,
    /// Two ticks above.
    pub up_two: Key,
    /// Two ticks below.
    pub down_two: Key,
}

/// The prices of one minute, each absent where the minute had no such trade.
#[derive(Clone, Copy, Debug, PartialEq, Eq, Structural)]
pub struct Quote {
    /// First price.
    pub open: Option<Price>,
    /// Highest price.
    pub high: Option<Price>,
    /// Lowest price.
    pub low: Option<Price>,
    /// Closing price.
    pub close: Option<Price>,
    /// Last seen price.
    pub last: Option<Price>,
}

/// The first of two optional prices that is present.
pub open spec fn or_price(first: Option<Price>, second: Option<Price>) -> Option<Price> {
    match first {
        Some(_) => first,
        None => second,
    }
}

/// The given optional price, or the fallback.
pub open spec fn price_or(value: Option<Price>, fallback: Price) -> Price {
    match value {
        Some(price) => price,
        None => fallback,
    }
}

/// The price zero.
pub open spec fn zero_price() -> Price {
    Price {
        at: 0,
        up_one: KEY_ONE_TICK,
        down_one: (-KEY_ONE_TICK) as i64,
        up_two: KEY_TWO_TICKS,
        down_two: (-KEY_TWO_TICKS) as i64,
    }
}

/// The price zero.
pub fn price_zero() -> (out: Price)
    ensures
        out == zero_price(),
{
    Price {
        at: 0,
        up_one: KEY_ONE_TICK,
        down_one: -KEY_ONE_TICK,
        up_two: KEY_TWO_TICKS,
        down_two: -KEY_TWO_TICKS,
    }
}

impl Quote {
    /// The high of the minute: its highest price, else its last, else zero.
    pub open spec fn spec_high(self) -> Price {
        price_or(or_price(self.high, self.last), zero_price())
    }

    /// The low of the minute: its lowest price, else its last, else zero.
    pub open spec fn spec_low(self) -> Price {
        price_or(or_price(self.low, self.last), zero_price())
    }

    /// The close of the minute: its closing price, else its last, else its first, else zero.
    pub open spec fn spec_close(self) -> Price {
        price_or(or_price(or_price(self.close, self.last), self.open), zero_price())
    }

    /// The closing price of the minute, else its last price, else zero.
    pub open spec fn spec_close_or_last(self) -> Price {
        price_or(or_price(self.close, self.last), zero_price())
    }

    /// The closing price of the minute, else its last price, else zero.
    pub fn close_or_last(&self) -> (out: Price)
        ensures
            out == self.spec_close_or_last(),
    {
        match self.close {
            Some(price) => price,
            None => match self.last {
                Some(price) => price,
                None => price_zero(),
            },
        }
    }

    /// The high of the minute: its highest price, else its last, else zero.
    pub fn high_or_zero(&self) -> (out: Price)
        ensures
            out == self.spec_high(),
    {
        match self.high {
            Some(price) => price,
            None => match self.last {
                Some(price) => price,
                None => price_zero(),
            },
        }
    }

    /// The low of the minute: its lowest price, else its last, else zero.
    pub fn low_or_zero(&self) -> (out: Price)
        ensures
            out == self.spec_low(),
    {
        match self.low {
            Some(price) => price,
            None => match self.last {
                Some(price) => price,
                None => price_zero(),
            },
        }
    }

    /// The close of the minute: its closing price, else its last, else its first, else zero.
    pub fn close_or_zero(&self) -> (out: Price)
        ensures
            out == self.spec_close(),
    {
        match self.close {
            Some(price) => price,
            None => match self.last {
                Some(price) => price,
                None => match self.open {
                    Some(price) => price,
                    None => price_zero(),
                },
            },
        }
    }
}

/// Every price that is present has a key.
pub open spec fn quote_has_keys(quote: Quote) -> bool {
    &&& quote.open matches Some(p) ==> is_key(p.at)
    &&& quote.high matches Some(p) ==> is_key(p.at)
    &&& quote.low matches Some(p) ==> is_key(p.at)
    &&& quote.close matches Some(p) ==> is_key(p.at)
    &&& quote.last matches Some(p) ==> is_key(p.at)
}

/// A key is the place of a double among all doubles: of two patterns with a clear sign bit
/// the larger has the larger key, a set sign bit negates the key, and zero has key 0.
pub proof fn law_keys_order_doubles(a: u64, b: u64)
    ensures
        key_of_bits(0) == 0,
        a < b < 0x8000_0000_0000_0000 ==> key_of_bits(a) < key_of_bits(b),
        a < 0x8000_0000_0000_0000 && b == a + 0x8000_0000_0000_0000 ==> key_of_bits(b)
            == -key_of_bits(a),
        a < 0x8000_0000_0000_0000 ==> (compares(a) <==> a <= 0x7FF0_0000_0000_0000),
        a >= 0x8000_0000_0000_0000 ==> (compares(a) <==> a <= 0xFFF0_0000_0000_0000),
{
}

/// The sign of a double that compares is 1 where its sign bit is clear and -1 where it is
/// set, zero included; what does not compare has the sign 0.
pub proof fn law_signs(bits: u64)
    ensures
        sign(bits) == 1 <==> bits <= 0x7FF0_0000_0000_0000,
        sign(bits) == -1 <==> 0x8000_0000_0000_0000 <= bits <= 0xFFF0_0000_0000_0000,
        sign(bits) == 1 || sign(bits) == -1 || sign(bits) == 0,
{
}

/// The digits of a double of full precision, as a whole number.
pub open spec fn significand(key: int) -> int {
    0x10_0000_0000_0000 + key % 0x10_0000_0000_0000
}

/// How often the digits of a double have to be halved to give its value.
pub open spec fn halvings(key: int) -> int {
    1075 - key / 0x10_0000_0000_0000
}

/// Half a double has its digits, halved once more.
pub proof fn law_half(key: Key)
    requires
        0x20_0000_0000_0000 <= key < 0x7FF0_0000_0000_0000,
    ensures
        significand(half(key) as int) == significand(key as int),
        halvings(half(key) as int) == halvings(key as int) + 1,
{
}

/// Whether the double with a key, one below two to the fifty-third, is the one that lies
/// nearest to a fraction.
pub open spec fn is_nearest(key: Key, numerator: int, denominator: int) -> bool {
    let shift = halvings(key as int);
    let apart = significand(key as int) * denominator - numerator * power2::pow2(shift as nat);
    &&& 0x20_0000_0000_0000 <= key
    &&& shift > 0
    &&& -denominator <= 2 * apart <= denominator
}

/// The powers of two that thresholds are held against.
pub proof fn lemma_powers_of_two()
    ensures
        power2::pow2(36) == 0x10_0000_0000,
        power2::pow2(50) == 0x4_0000_0000_0000,
        power2::pow2(51) == 0x8_0000_0000_0000,
        power2::pow2(52) == 0x10_0000_0000_0000,
        power2::pow2(53) == 0x20_0000_0000_0000,
        power2::pow2(54) == 0x40_0000_0000_0000,
        power2::pow2(55) == 0x80_0000_0000_0000,
        power2::pow2(56) == 0x100_0000_0000_0000,
        power2::pow2(57) == 0x200_0000_0000_0000,
        power2::pow2(58) == 0x400_0000_0000_0000,
        power2::pow2(59) == 0x800_0000_0000_0000,
        power2::pow2(82) == 0x4_0000_0000_0000_0000_0000,
        power2::pow2(92) == 0x1000_0000_0000_0000_0000_0000,
{
    power2::lemma2_to64();
    power2::lemma2_to64_rest();
    power2::lemma_pow2_adds(40, 42);
    power2::lemma_pow2_adds(40, 52);
}

/// A tick is a hundredth, and two ticks are two of them.
pub proof fn law_ticks()
    ensures
        is_nearest(KEY_ONE_TICK, 1, 100),
        is_nearest(KEY_TWO_TICKS, 2, 100),
        zero_price().at == 0,
        zero_price().up_one == KEY_ONE_TICK,
        zero_price().down_one == -KEY_ONE_TICK,
        zero_price().up_two == KEY_TWO_TICKS,
        zero_price().down_two == -KEY_TWO_TICKS,
{
    lemma_powers_of_two();
}

/// A minute that has a highest, a lowest and a closing price has these as its high, low and
/// close. A missing one gives way to the last price, a missing close after that to the first
/// one, and a minute without any has zero.
pub proof fn law_minute_prices(quote: Quote)
    ensures
        quote.high matches Some(p) ==> quote.spec_high() == p,
        quote.low matches Some(p) ==> quote.spec_low() == p,
        quote.close matches Some(p) ==> quote.spec_close() == p && quote.spec_close_or_last() == p,
        quote.last matches Some(p) ==> {
            &&& quote.high is None ==> quote.spec_high() == p
            &&& quote.low is None ==> quote.spec_low() == p
            &&& quote.close is None ==> quote.spec_close() == p && quote.spec_close_or_last() == p
        },
        quote.last is None ==> {
            &&& quote.high is None ==> quote.spec_high().at == 0
            &&& quote.low is None ==> quote.spec_low().at == 0
            &&& quote.close is None ==> quote.spec_close_or_last().at == 0
            &&& quote.close is None && quote.open is None ==> quote.spec_close().at == 0
        },
        quote.open matches Some(p) ==> quote.close is None && quote.last is None
            ==> quote.spec_close() == p,
{
}

/// The lowest of a run is at or above a limit exactly where all its keys are and the limit is
/// not beyond infinity, and it is one of the keys or infinity.
pub proof fn law_lowest(keys: Seq<Key>, limit: Key)
    ensures
        lowest(keys) >= limit <==> limit <= KEY_INFINITY && (forall|i: int|
            0 <= i < keys.len() ==> #[trigger] keys[i] >= limit),
        lowest(keys) == KEY_INFINITY || keys.contains(lowest(keys)),
    decreases keys.len(),
{
    if keys.len() > 0 {
        let rest = keys.drop_last();
        law_lowest(rest, limit);
        if lowest(keys) == keys.last() {
            assert(keys[keys.len() - 1] == lowest(keys));
        } else if rest.contains(lowest(rest)) {
            let j = choose|j: int| 0 <= j < rest.len() && rest[j] == lowest(rest);
            assert(keys[j] == lowest(keys));
        }
        if lowest(keys) >= limit {
            assert forall|i: int| 0 <= i < keys.len() implies #[trigger] keys[i] >= limit by {
                if i < rest.len() {
                    assert(rest[i] == keys[i]);
                }
            }
        }
        if forall|i: int| 0 <= i < keys.len() ==> #[trigger] keys[i] >= limit {
            assert(keys[keys.len() - 1] >= limit);
            assert forall|i: int| 0 <= i < rest.len() implies #[trigger] rest[i] >= limit by {
                assert(keys[i] >= limit);
            }
        }
    }
}

/// The highest of a run is at or below a limit exactly where all its keys are and the limit
/// is not beyond negative infinity, and it is one of the keys or negative infinity.
pub proof fn law_highest(keys: Seq<Key>, limit: Key)
    ensures
        highest(keys) <= limit <==> limit >= -KEY_INFINITY && (forall|i: int|
            0 <= i < keys.len() ==> #[trigger] keys[i] <= limit),
        highest(keys) == -KEY_INFINITY || keys.contains(highest(keys)),
    decreases keys.len(),
{
    if keys.len() > 0 {
        let rest = keys.drop_last();
        law_highest(rest, limit);
        if highest(keys) == keys.last() {
            assert(keys[keys.len() - 1] == highest(keys));
        } else if rest.contains(highest(rest)) {
            let j = choose|j: int| 0 <= j < rest.len() && rest[j] == highest(rest);
            assert(keys[j] == highest(keys));
        }
        if highest(keys) <= limit {
            assert forall|i: int| 0 <= i < keys.len() implies #[trigger] keys[i] <= limit by {
                if i < rest.len() {
                    assert(rest[i] == keys[i]);
                }
            }
        }
        if forall|i: int| 0 <= i < keys.len() ==> #[trigger] keys[i] <= limit {
            assert(keys[keys.len() - 1] <= limit);
            assert forall|i: int| 0 <= i < rest.len() implies #[trigger] rest[i] <= limit by {
                assert(keys[i] <= limit);
            }
        }
    }
}

} // verus!
