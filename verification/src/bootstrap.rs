//! Block resampling by a seeded generator.

use vstd::prelude::*;

verus! {

/// The fewest returns that are resampled.
pub const BOOTSTRAP_MIN_RET_SAMPLES: usize = 32;

/// A generator of pseudo-random numbers by three shifts.
#[derive(Clone, Copy, Debug, PartialEq, Eq)]
pub struct XorShift64 {
    /// The state, which is also the last number given.
    pub state: u64,
}

/// The number after `x`.
pub open spec fn shifted(x: u64) -> u64 {
    let a = x ^ (x << 13);
    let b = a ^ (a >> 7);
    b ^ (b << 17)
}

/// The generator never reaches zero, from which it could not leave.
pub proof fn law_shifted_is_not_zero(x: u64)
    requires
        x != 0,
    ensures
        shifted(x) != 0,
{
    let a = x ^ (x << 13);
    let b = a ^ (a >> 7);
    assert(x != 0 ==> x ^ (x << 13) != 0) by (bit_vector);
    assert(a != 0 ==> a ^ (a >> 7) != 0) by (bit_vector);
    assert(b != 0 ==> b ^ (b << 17) != 0) by (bit_vector);
}

/// The number that a draw below `bound` gives from a state.
pub open spec fn drawn(state: u64, bound: usize) -> usize {
    if bound <= 1 {
        0
    } else {
        shifted(state) as usize % bound
    }
}

/// The state that a draw below `bound` leaves.
pub open spec fn after_draw(state: u64, bound: usize) -> u64 {
    if bound <= 1 {
        state
    } else {
        shifted(state)
    }
}

impl XorShift64 {
    /// A generator that starts at `seed`, or at one in place of zero.
    pub fn new(seed: u64) -> (out: Self)
        ensures
            out.state == if seed == 0 {
                1
            } else {
                seed
            },
    {
        XorShift64 {
            state: if seed == 0 {
                1
            } else {
                seed
            },
        }
    }

    /// The next number.
    pub fn next_u64(&mut self) -> (out: u64)
        ensures
            out == shifted(old(self).state),
            final(self).state == out,
            old(self).state != 0 ==> out != 0,
    {
        let mut x: u64 = self.state;
        x ^= x << 13;
        x ^= x >> 7;
        x ^= x << 17;
        self.state = x;
        proof {
            if old(self).state != 0 {
                law_shifted_is_not_zero(old(self).state);
            }
        }
        x
    }

    /// A number below `bound`; zero, without a step, where the bound leaves no choice.
    pub fn next_usize(&mut self, bound: usize) -> (out: usize)
        ensures
            out == drawn(old(self).state, bound),
            final(self).state == after_draw(old(self).state, bound),
            bound > 0 ==> out < bound,
    {
        if bound <= 1 {
            0
        } else {
            (self.next_u64() as usize) % bound
        }
    }
}

/// The length of the blocks: at least one, and less than all returns where there
/// are two.
pub open spec fn block_size(pool: nat, block_len: nat) -> nat {
    let most = if pool <= 2 {
        1
    } else {
        (pool - 1) as nat
    };
    if block_len < 1 {
        1
    } else if block_len > most {
        most
    } else {
        block_len
    }
}

/// Where the next block starts, drawn from a state.
pub open spec fn block_start(state: u64, pool: nat, block: nat) -> int {
    if pool <= block {
        0
    } else {
        drawn(state, (pool - block + 1) as usize) as int
    }
}

/// The state after the start of a block was drawn.
pub open spec fn after_start(state: u64, pool: nat, block: nat) -> u64 {
    if pool <= block {
        state
    } else {
        after_draw(state, (pool - block + 1) as usize)
    }
}

/// The positions of a sample: blocks of neighbouring returns, one after the other,
/// the last cut to the length wanted.
pub open spec fn sample_from(state: u64, pool: nat, block: nat, len: nat) -> Seq<int>
    decreases len,
{
    if len == 0 || block == 0 {
        Seq::empty()
    } else {
        let start = block_start(state, pool, block);
        let take = if len < block {
            len
        } else {
            block
        };
        Seq::new(take, |j: int| start + j) + sample_from(
            after_start(state, pool, block),
            pool,
            block,
            (len - take) as nat,
        )
    }
}

/// The state after a sample was drawn.
pub open spec fn after_sample(state: u64, pool: nat, block: nat, len: nat) -> u64
    decreases len,
{
    if len == 0 || block == 0 {
        state
    } else {
        let take = if len < block {
            len
        } else {
            block
        };
        after_sample(after_start(state, pool, block), pool, block, (len - take) as nat)
    }
}

/// The samples of a run, one after the other from one state.
pub open spec fn samples_from(state: u64, pool: nat, block: nat, len: nat, count: nat) -> Seq<
    Seq<int>,
>
    decreases count,
{
    if count == 0 {
        Seq::empty()
    } else {
        seq![sample_from(state, pool, block, len)] + samples_from(
            after_sample(state, pool, block, len),
            pool,
            block,
            len,
            (count - 1) as nat,
        )
    }
}

/// Every position of a sample is one of a return.
pub proof fn law_sample_in_range(state: u64, pool: nat, block: nat, len: nat)
    requires
        1 <= block <= pool < usize::MAX,
    ensures
        sample_from(state, pool, block, len).len() == len,
        forall|j: int|
            0 <= j < len ==> 0 <= #[trigger] sample_from(state, pool, block, len)[j] < pool,
    decreases len,
{
    if len > 0 {
        let take = if len < block {
            len
        } else {
            block
        };
        law_sample_in_range(
            after_start(state, pool, block),
            pool,
            block,
            (len - take) as nat,
        );
        let start = block_start(state, pool, block);
        let rest = sample_from(
            after_start(state, pool, block),
            pool,
            block,
            (len - take) as nat,
        );
        let all = sample_from(state, pool, block, len);
        assert(start + block <= pool) by {
            if pool > block {
                let bound = (pool - block + 1) as usize;
                assert(drawn(state, bound) < bound);
            }
        }
        assert forall|j: int| 0 <= j < len implies 0 <= #[trigger] all[j] < pool by {
            if j >= take {
                assert(all[j] == rest[j - take]);
            }
        }
    }
}

/// Draws the positions of one sample.
fn draw_sample(rng: &mut XorShift64, pool: usize, block: usize, len: usize) -> (out: Vec<usize>)
    requires
        1 <= block <= pool < usize::MAX,
    ensures
        out@.map_values(|i: usize| i as int) == sample_from(
            old(rng).state,
            pool as nat,
            block as nat,
            len as nat,
        ),
        final(rng).state == after_sample(
            old(rng).state,
            pool as nat,
            block as nat,
            len as nat,
        ),
{
    let mut out: Vec<usize> = Vec::new();
    let ghost whole = sample_from(old(rng).state, pool as nat, block as nat, len as nat);
    proof {
        assert(out@.map_values(|i: usize| i as int) + whole =~= whole);
    }
    while out.len() < len
        invariant
            1 <= block <= pool < usize::MAX,
            out@.len() <= len,
            whole == sample_from(old(rng).state, pool as nat, block as nat, len as nat),
            whole =~= out@.map_values(|i: usize| i as int) + sample_from(
                rng.state,
                pool as nat,
                block as nat,
                (len - out@.len()) as nat,
            ),
            after_sample(old(rng).state, pool as nat, block as nat, len as nat) == after_sample(
                rng.state,
                pool as nat,
                block as nat,
                (len - out@.len()) as nat,
            ),
        decreases len - out@.len(),
    {
        let ghost state = rng.state;
        let ghost before = out@;
        let start: usize = if pool == block {
            0
        } else {
            rng.next_usize(pool - block + 1)
        };
        let room: usize = len - out.len();
        let take: usize = if room < block {
            room
        } else {
            block
        };
        let mut j: usize = 0;
        while j < take
            invariant
                j <= take <= block,
                start + block <= pool < usize::MAX,
                out@ =~= before + Seq::new(j as nat, |i: int| (start + i) as usize),
            decreases take - j,
        {
            out.push(start + j);
            j += 1;
        }
        proof {
            let taken = Seq::new(take as nat, |i: int| block_start(
                state,
                pool as nat,
                block as nat,
            ) + i);
            assert(out@.map_values(|i: usize| i as int) =~= before.map_values(|i: usize| i as int)
                + taken);
            let rest = sample_from(
                rng.state,
                pool as nat,
                block as nat,
                (len - out@.len()) as nat,
            );
            assert(before.map_values(|i: usize| i as int) + (taken + rest) =~= before.map_values(
                |i: usize| i as int,
            ) + taken + rest);
        }
    }
    out
}

/// The positions of the returns that each of `count` resampled legs is made of, or
/// nothing where there are too few returns, the leg is too short or no sample is
/// asked for.
pub fn block_bootstrap_samples(
    pool: usize,
    leg_len: usize,
    count: usize,
    block_len: usize,
    seed: u64,
) -> (out: Option<Vec<Vec<usize>>>)
    requires
        pool < usize::MAX,
    ensures
        out is Some <==> pool >= BOOTSTRAP_MIN_RET_SAMPLES && leg_len >= 2 && count > 0,
        out matches Some(samples) ==> {
            let drawn_samples = samples_from(
                if seed == 0 {
                    1
                } else {
                    seed
                },
                pool as nat,
                block_size(pool as nat, block_len as nat),
                leg_len as nat,
                count as nat,
            );
            &&& samples@.len() == drawn_samples.len()
            &&& forall|i: int|
                0 <= i < samples@.len() ==> (#[trigger] samples@[i])@.map_values(
                    |j: usize| j as int,
                ) == drawn_samples[i]
        },
{
    if pool < BOOTSTRAP_MIN_RET_SAMPLES || leg_len < 2 || count == 0 {
        return None;
    }
    let block: usize = if block_len < 1 {
        1
    } else if block_len > pool - 1 {
        pool - 1
    } else {
        block_len
    };
    let mut rng: XorShift64 = XorShift64::new(seed);
    let mut samples: Vec<Vec<usize>> = Vec::new();
    let ghost first = rng.state;
    let ghost whole = samples_from(
        first,
        pool as nat,
        block as nat,
        leg_len as nat,
        count as nat,
    );
    let mut i: usize = 0;
    while i < count
        invariant
            i <= count,
            samples@.len() == i,
            1 <= block <= pool < usize::MAX,
            whole == samples_from(
                first,
                pool as nat,
                block as nat,
                leg_len as nat,
                count as nat,
            ),
            whole.len() == i + samples_from(
                rng.state,
                pool as nat,
                block as nat,
                leg_len as nat,
                (count - i) as nat,
            ).len(),
            forall|j: int|
                i <= j < whole.len() ==> #[trigger] whole[j] == samples_from(
                    rng.state,
                    pool as nat,
                    block as nat,
                    leg_len as nat,
                    (count - i) as nat,
                )[j - i],
            forall|j: int|
                0 <= j < i ==> (#[trigger] samples@[j])@.map_values(|k: usize| k as int)
                    == whole[j],
        decreases count - i,
    {
        let ghost state = rng.state;
        let sample: Vec<usize> = draw_sample(&mut rng, pool, block, leg_len);
        samples.push(sample);
        proof {
            let left = samples_from(
                state,
                pool as nat,
                block as nat,
                leg_len as nat,
                (count - i) as nat,
            );
            assert(whole[i as int] == left[0]);
            assert forall|j: int| i + 1 <= j < whole.len() implies #[trigger] whole[j]
                == samples_from(
                rng.state,
                pool as nat,
                block as nat,
                leg_len as nat,
                (count - i - 1) as nat,
            )[j - i - 1] by {
                assert(whole[j] == left[j - i]);
            }
        }
        i += 1;
    }
    Some(samples)
}

/// The positions of the values that are present, up to `end_idx`.
pub open spec fn present_before(series: Seq<bool>, hi: int) -> Seq<int>
    decreases hi,
{
    if hi <= 0 {
        Seq::empty()
    } else if series[hi - 1] {
        present_before(series, hi - 1).push(hi - 1)
    } else {
        present_before(series, hi - 1)
    }
}

/// The positions of the values of which the returns of a series are the
/// differences, each position with the one before it, up to `end_idx`. None where
/// fewer than three values are present.
pub open spec fn return_positions(series: Seq<bool>, end_idx: int) -> Seq<(int, int)> {
    let upper = if end_idx < series.len() - 1 {
        end_idx
    } else {
        series.len() - 1
    };
    let at = present_before(series, upper + 1);
    if end_idx == 0 || series.len() == 0 || at.len() < 3 {
        Seq::empty()
    } else {
        Seq::new((at.len() - 1) as nat, |i: int| (at[i], at[i + 1]))
    }
}

/// Pairs of positions as mathematical integers.
pub open spec fn as_positions(pairs: Seq<(usize, usize)>) -> Seq<(int, int)> {
    Seq::new(pairs.len(), |i: int| (pairs[i].0 as int, pairs[i].1 as int))
}

/// The positions between which the returns of a series are taken; `series` tells
/// which of its values are present.
pub fn build_returns_from_option_series(series: &[bool], end_idx: usize) -> (out: Vec<
    (usize, usize),
>)
    ensures
        as_positions(out@) == return_positions(series@, end_idx as int),
{
    let mut out: Vec<(usize, usize)> = Vec::new();
    if end_idx == 0 || series.len() == 0 {
        return out;
    }
    let upper: usize = if end_idx < series.len() - 1 {
        end_idx
    } else {
        series.len() - 1
    };
    let mut at: Vec<usize> = Vec::new();
    let mut i: usize = 0;
    while i <= upper
        invariant
            i <= upper + 1,
            upper < series@.len(),
            at@.map_values(|a: usize| a as int) =~= present_before(series@, i as int),
        decreases upper + 1 - i,
    {
        if series[i] {
            at.push(i);
        }
        i += 1;
    }
    if at.len() < 3 {
        return out;
    }
    let ghost positions = present_before(series@, upper + 1);
    let mut k: usize = 1;
    while k < at.len()
        invariant
            1 <= k <= at@.len(),
            at@.map_values(|a: usize| a as int) =~= positions,
            out@.len() == k - 1,
            forall|j: int|
                0 <= j < k - 1 ==> (#[trigger] out@[j]).0 == positions[j] && out@[j].1
                    == positions[j + 1],
        decreases at@.len() - k,
    {
        proof {
            assert(positions[k - 1] == at@[k - 1]);
            assert(positions[k as int] == at@[k as int]);
        }
        out.push((at[k - 1], at[k]));
        k += 1;
    }
    proof {
        assert(as_positions(out@) =~= return_positions(series@, end_idx as int));
    }
    out
}

/// The number before that which leads to a given one is found by undoing the three shifts, the
/// last one first.
pub proof fn law_shifts_can_be_undone(x: u64)
    ensures
        ({
            let c = shifted(x);
            let b = c ^ (c << 17) ^ (c << 34) ^ (c << 51);
            let a = b ^ (b >> 7) ^ (b >> 14) ^ (b >> 21) ^ (b >> 28) ^ (b >> 35) ^ (b >> 42) ^ (b
                >> 49) ^ (b >> 56) ^ (b >> 63);
            x == a ^ (a << 13) ^ (a << 26) ^ (a << 39) ^ (a << 52)
        }),
{
    let a = x ^ (x << 13);
    let b = a ^ (a >> 7);
    let c = b ^ (b << 17);
    assert(c == b ^ (b << 17) ==> c ^ (c << 17) ^ (c << 34) ^ (c << 51) == b) by (bit_vector);
    assert(b == a ^ (a >> 7) ==> b ^ (b >> 7) ^ (b >> 14) ^ (b >> 21) ^ (b >> 28) ^ (b >> 35) ^ (b
        >> 42) ^ (b >> 49) ^ (b >> 56) ^ (b >> 63) == a) by (bit_vector);
    assert(a == x ^ (x << 13) ==> a ^ (a << 13) ^ (a << 26) ^ (a << 39) ^ (a << 52) == x)
        by (bit_vector);
}

/// A draw gives a number below its bound: the remainder of the next number. A draw that can
/// give only zero leaves the state as it is.
pub proof fn law_draws(state: u64, bound: usize)
    ensures
        bound > 0 ==> drawn(state, bound) < bound,
        bound > 1 ==> (shifted(state) as usize - drawn(state, bound)) % (bound as int) == 0,
        bound > 1 ==> after_draw(state, bound) == shifted(state),
        bound <= 1 ==> drawn(state, bound) == 0 && after_draw(state, bound) == state,
{
    if bound > 1 {
        let n = shifted(state) as usize as int;
        vstd::arithmetic::div_mod::lemma_fundamental_div_mod(n, bound as int);
        vstd::arithmetic::div_mod::lemma_mod_multiples_basic(n / (bound as int), bound as int);
        vstd::arithmetic::mul::lemma_mul_is_commutative(bound as int, n / (bound as int));
    }
}

/// Blocks are as long as asked for, but no shorter than one return and, of three returns or
/// more, short enough to leave one out.
pub proof fn law_block_size(pool: nat, block_len: nat)
    ensures
        block_size(pool, block_len) >= 1,
        pool >= 2 ==> block_size(pool, block_len) < pool,
        1 <= block_len < pool ==> block_size(pool, block_len) == block_len,
        block_len >= pool && pool >= 2 ==> block_size(pool, block_len) == pool - 1,
{
}

/// A sample is made of blocks: within each the positions are neighbours, and each block starts
/// where all of it is among the returns.
pub proof fn law_sample_blocks(state: u64, pool: nat, block: nat, len: nat, j: int)
    requires
        1 <= block <= pool < usize::MAX,
        0 <= j < len,
    ensures
        sample_from(state, pool, block, len).len() == len,
        j % (block as int) != 0 ==> sample_from(state, pool, block, len)[j] == sample_from(
            state,
            pool,
            block,
            len,
        )[j - 1] + 1,
        j % (block as int) == 0 ==> 0 <= sample_from(state, pool, block, len)[j] <= pool - block,
    decreases len,
{
    law_sample_in_range(state, pool, block, len);
    let take = if len < block {
        len
    } else {
        block
    };
    let next = after_start(state, pool, block);
    let rest = sample_from(next, pool, block, (len - take) as nat);
    let all = sample_from(state, pool, block, len);
    let start = block_start(state, pool, block);
    if j < take {
        vstd::arithmetic::div_mod::lemma_small_mod(j as nat, block);
        if pool > block {
            let bound = (pool - block + 1) as usize;
            assert(drawn(state, bound) < bound);
        }
    } else {
        law_sample_in_range(next, pool, block, (len - take) as nat);
        law_sample_blocks(next, pool, block, (len - take) as nat, j - take);
        assert(take == block);
        vstd::arithmetic::div_mod::lemma_mod_sub_multiples_vanish(j, block as int);
        assert((j - take) % (block as int) == j % (block as int));
        assert(all[j] == rest[j - take]);
        if j > take {
            assert(all[j - 1] == rest[j - 1 - take]);
        } else {
            vstd::arithmetic::div_mod::lemma_small_mod(0, block);
        }
    }
}

/// A run has as many samples as asked for. The first is that of its state, and the others are
/// those of a run from the state that the first one leaves.
pub proof fn law_samples(state: u64, pool: nat, block: nat, len: nat, count: nat, i: int)
    requires
        0 <= i < count,
    ensures
        samples_from(state, pool, block, len, count).len() == count,
        samples_from(state, pool, block, len, count)[0] == sample_from(state, pool, block, len),
        i > 0 ==> samples_from(state, pool, block, len, count)[i] == samples_from(
            after_sample(state, pool, block, len),
            pool,
            block,
            len,
            (count - 1) as nat,
        )[i - 1],
    decreases count,
{
    if count > 1 {
        law_samples(after_sample(state, pool, block, len), pool, block, len, (count - 1) as nat, 0);
    } else {
        assert(samples_from(
            after_sample(state, pool, block, len),
            pool,
            block,
            len,
            (count - 1) as nat,
        ).len() == 0);
    }
}

/// Two samples are drawn as one of both lengths is, where the first ends with a whole block.
pub proof fn law_samples_follow_on(state: u64, pool: nat, block: nat, n: nat, len: nat)
    requires
        block > 0,
    ensures
        sample_from(state, pool, block, n * block + len) =~= sample_from(
            state,
            pool,
            block,
            n * block,
        ) + sample_from(after_sample(state, pool, block, n * block), pool, block, len),
    decreases n,
{
    if n > 0 {
        let next = after_start(state, pool, block);
        assert(n * block == (n - 1) * block + block) by (nonlinear_arith);
        assert((n - 1) * block >= 0) by (nonlinear_arith)
            requires
                n > 0,
        ;
        law_samples_follow_on(next, pool, block, (n - 1) as nat, len);
        assert((n * block + len - block) as nat == (n - 1) as nat * block + len);
        assert((n * block - block) as nat == (n - 1) as nat * block);
    } else {
        assert(n * block == 0) by (nonlinear_arith)
            requires
                n == 0,
        ;
    }
}

proof fn lemma_present_before(series: Seq<bool>, hi: int)
    requires
        0 <= hi <= series.len(),
    ensures
        forall|p: int|
            0 <= p < present_before(series, hi).len() ==> 0 <= #[trigger] present_before(
                series,
                hi,
            )[p] < hi && series[present_before(series, hi)[p]],
        forall|p: int, q: int|
            0 <= p < q < present_before(series, hi).len() ==> #[trigger] present_before(
                series,
                hi,
            )[p] < #[trigger] present_before(series, hi)[q],
        forall|i: int|
            0 <= i < hi && #[trigger] series[i] ==> present_before(series, hi).contains(i),
    decreases hi,
{
    if hi > 0 {
        lemma_present_before(series, hi - 1);
        let rest = present_before(series, hi - 1);
        let all = present_before(series, hi);
        assert forall|i: int| 0 <= i < hi && #[trigger] series[i] implies all.contains(i) by {
            if i == hi - 1 {
                assert(all[all.len() - 1] == i);
            } else {
                let p = choose|p: int| 0 <= p < rest.len() && rest[p] == i;
                assert(all[p] == i);
            }
        }
    }
}

/// A return is taken between two values that are present, by the end, with none present
/// between them; and every such pair has its return as long as there are two of them or more
/// and the end is not the first value.
pub proof fn law_returns(series: Seq<bool>, end_idx: int, a: int, b: int)
    requires
        0 < end_idx,
        0 <= a < b <= end_idx,
        b < series.len(),
        series[a],
        series[b],
        forall|k: int| a < k < b ==> !#[trigger] series[k],
    ensures
        return_positions(series, end_idx).contains((a, b)) <==> exists|k: int|
            0 <= k <= end_idx && k < series.len() && k != a && k != b && #[trigger] series[k],
        forall|p: int|
            0 <= p < return_positions(series, end_idx).len() ==> {
                let (x, y) = #[trigger] return_positions(series, end_idx)[p];
                &&& 0 <= x < y <= end_idx && y < series.len()
                &&& series[x] && series[y]
                &&& forall|k: int| x < k < y ==> !#[trigger] series[k]
            },
{
    let upper = if end_idx < series.len() - 1 {
        end_idx
    } else {
        series.len() - 1
    };
    let at = present_before(series, upper + 1);
    lemma_present_before(series, upper + 1);
    let out = return_positions(series, end_idx);
    assert(at.contains(a) && at.contains(b));
    let pa = choose|p: int| 0 <= p < at.len() && at[p] == a;
    let pb = choose|p: int| 0 <= p < at.len() && at[p] == b;
    assert(pb == pa + 1) by {
        if pb <= pa {
            if pb < pa {
                assert(at[pb] < at[pa]);
            }
        } else if pb > pa + 1 {
            assert(at[pa] < at[pa + 1] && at[pa + 1] < at[pb]);
            assert(series[at[pa + 1]]);
        }
    }
    if exists|k: int|
        0 <= k <= end_idx && k < series.len() && k != a && k != b && #[trigger] series[k] {
        let k = choose|k: int|
            0 <= k <= end_idx && k < series.len() && k != a && k != b && #[trigger] series[k];
        assert(at.contains(k));
        let pk = choose|p: int| 0 <= p < at.len() && at[p] == k;
        assert(at.len() >= 3);
        assert(out[pa] == (a, b));
    }
    if out.contains((a, b)) {
        assert(at.len() >= 3);
        let p = if pa == 0 {
            2
        } else {
            0
        };
        assert(series[at[p]]);
        assert(at[p] != a && at[p] != b) by {
            if pa == 0 {
                assert(at[1] < at[2]);
                assert(at[0] < at[2]);
            } else {
                assert(at[0] < at[pa]);
                assert(at[0] < at[pb]);
            }
        }
    }
    assert forall|p: int| 0 <= p < out.len() implies {
        let (x, y) = #[trigger] out[p];
        &&& 0 <= x < y <= end_idx && y < series.len()
        &&& series[x] && series[y]
        &&& forall|k: int| x < k < y ==> !#[trigger] series[k]
    } by {
        let (x, y) = out[p];
        assert(x == at[p] && y == at[p + 1]);
        assert forall|k: int| x < k < y implies !#[trigger] series[k] by {
            if series[k] {
                assert(at.contains(k));
                let q = choose|q: int| 0 <= q < at.len() && at[q] == k;
                if q < p {
                    assert(at[q] < at[p]);
                }
                if q > p + 1 {
                    assert(at[p + 1] < at[q]);
                }
            }
        }
    }
}

/// A block can start wherever all of it is among the returns. Its start is drawn once, unless
/// there is no choice, and then the state stays as it is.
pub proof fn law_block_starts(state: u64, pool: nat, block: nat)
    requires
        1 <= block,
        pool < usize::MAX,
    ensures
        pool <= block ==> block_start(state, pool, block) == 0 && after_start(state, pool, block)
            == state,
        pool > block ==> after_start(state, pool, block) == shifted(state) && 0 <= block_start(
            state,
            pool,
            block,
        ) <= pool - block && block_start(state, pool, block) == shifted(state) as usize as int % (
        pool - block + 1),
{
}

} // verus!
