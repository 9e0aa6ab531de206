//! Local highs and lows of a run of prices.

use vstd::prelude::*;

use crate::order::Key;

verus! {

/// Whether `a` lies farther out than `b`: above it among highs, below it among lows.
pub open spec fn beyond(a: Key, b: Key, high: bool) -> bool {
    if high {
        a > b
    } else {
        a < b
    }
}

/// Whether `a` lies farther out than `b`: above it among highs, below it among lows.
pub fn is_beyond(a: Key, b: Key, high: bool) -> (out: bool)
    ensures
        out == beyond(a, b, high),
{
    if high {
        a > b
    } else {
        a < b
    }
}

/// Whether the value at `i` is a pivot: farther out than the `k` values before it,
/// and none of the `k` values after it farther out than it.
pub open spec fn is_pivot(values: Seq<Key>, i: int, k: int, high: bool) -> bool {
    &&& k <= i
    &&& i + k < values.len()
    &&& forall|j: int| i - k <= j < i ==> beyond(values[i], #[trigger] values[j], high)
    &&& forall|j: int| i < j <= i + k ==> !beyond(#[trigger] values[j], values[i], high)
}

/// The pivots before index `hi`, in order.
pub open spec fn pivots_before(values: Seq<Key>, hi: int, k: int, high: bool) -> Seq<int>
    decreases hi,
{
    if hi <= 0 {
        Seq::empty()
    } else if is_pivot(values, hi - 1, k, high) {
        pivots_before(values, hi - 1, k, high).push(hi - 1)
    } else {
        pivots_before(values, hi - 1, k, high)
    }
}

/// All pivots of a run, in order.
pub open spec fn all_pivots(values: Seq<Key>, k: int, high: bool) -> Seq<int> {
    pivots_before(values, values.len() as int, k, high)
}

/// The pivots listed are pivots, in ascending order, each once, and no other index is one.
pub proof fn law_pivots_listed(values: Seq<Key>, hi: int, k: int, high: bool)
    ensures
        ({
            let listed = pivots_before(values, hi, k, high);
            &&& forall|a: int|
                0 <= a < listed.len() ==> 0 <= #[trigger] listed[a] < hi && is_pivot(
                    values,
                    listed[a],
                    k,
                    high,
                )
            &&& forall|a: int, b: int|
                0 <= a < b < listed.len() ==> #[trigger] listed[a] < #[trigger] listed[b]
            &&& forall|i: int|
                0 <= i < hi && #[trigger] is_pivot(values, i, k, high) ==> listed.contains(i)
        }),
    decreases hi,
{
    if hi > 0 {
        law_pivots_listed(values, hi - 1, k, high);
        let rest = pivots_before(values, hi - 1, k, high);
        let listed = pivots_before(values, hi, k, high);
        assert forall|i: int| 0 <= i < hi && #[trigger] is_pivot(values, i, k, high) implies listed.contains(
            i,
        ) by {
            if i < hi - 1 {
                assert(rest.contains(i));
                let a = choose|a: int| 0 <= a < rest.len() && rest[a] == i;
                assert(listed[a] == i);
            } else {
                assert(listed[listed.len() - 1] == i);
            }
        }
    }
}

/// Two pivots of one kind lie more than `k` apart.
pub proof fn law_pivots_apart(values: Seq<Key>, i: int, j: int, k: int, high: bool)
    requires
        k >= 0,
        i < j,
        is_pivot(values, i, k, high),
        is_pivot(values, j, k, high),
    ensures
        j > i + k,
{
    if j <= i + k {
        assert(!beyond(values[j], values[i], high));
        assert(beyond(values[j], values[i], high));
    }
}

/// The last bars of a run cannot be pivots yet.
proof fn lemma_no_late_pivots(values: Seq<Key>, lo: int, hi: int, k: int, high: bool)
    requires
        lo >= values.len() - k,
        lo <= hi,
    ensures
        pivots_before(values, hi, k, high) == pivots_before(
            values,
            lo,
            k,
            high,
        ),
    decreases hi - lo,
{
    if lo < hi {
        lemma_no_late_pivots(values, lo, hi - 1, k, high);
    }
}

/// More bars do not change the pivots that were complete.
proof fn lemma_same_pivots(v: Seq<Key>, w: Seq<Key>, hi: int, k: int, high: bool)
    requires
        v.len() <= w.len(),
        forall|i: int| 0 <= i < v.len() ==> #[trigger] v[i] == w[i],
        hi + k <= v.len(),
    ensures
        pivots_before(v, hi, k, high) == pivots_before(
            w,
            hi,
            k,
            high,
        ),
    decreases hi,
{
    if hi > 0 {
        lemma_same_pivots(v, w, hi - 1, k, high);
        let i = hi - 1;
        if k <= i {
            assert forall|j: int| i - k <= j <= i + k implies v[j] == w[j] by {}
            if is_pivot(v, i, k, high) {
                assert forall|j: int| i - k <= j < i implies beyond(
                    w[i],
                    #[trigger] w[j],
                    high,
                ) by {
                    assert(beyond(v[i], v[j], high));
                }
                assert forall|j: int| i < j <= i + k implies !beyond(
                    #[trigger] w[j],
                    w[i],
                    high,
                ) by {
                    assert(!beyond(v[j], v[i], high));
                }
                assert(is_pivot(w, i, k, high));
            }
            if is_pivot(w, i, k, high) {
                assert forall|j: int| i - k <= j < i implies beyond(
                    v[i],
                    #[trigger] v[j],
                    high,
                ) by {
                    assert(beyond(w[i], w[j], high));
                }
                assert forall|j: int| i < j <= i + k implies !beyond(
                    #[trigger] v[j],
                    v[i],
                    high,
                ) by {
                    assert(!beyond(w[j], w[i], high));
                }
                assert(is_pivot(v, i, k, high));
            }
        }
    }
}

/// One more value can complete one pivot, `k` places before it, and takes none away.
pub proof fn law_pivots_grow(values: Seq<Key>, value: Key, k: int, high: bool)
    requires
        k >= 0,
    ensures
        ({
            let n = values.len() as int;
            let more = values.push(value);
            all_pivots(more, k, high) == if is_pivot(more, n - k, k, high) {
                all_pivots(values, k, high).push(n - k)
            } else {
                all_pivots(values, k, high)
            }
        }),
{
    let n = values.len() as int;
    let more = values.push(value);
    assert forall|i: int| 0 <= i < n implies #[trigger] values[i] == more[i] by {}
    lemma_no_late_pivots(values, n - k, n, k, high);
    lemma_no_late_pivots(more, n + 1 - k, n + 1, k, high);
    lemma_same_pivots(values, more, n - k, k, high);
    if n < k {
        assert(pivots_before(more, n + 1 - k, k, high) =~= Seq::empty());
    }
}

/// Whether the value at `i` is a pivot.
pub fn check_pivot(values: &[Key], i: usize, k: usize, high: bool) -> (out: bool)
    requires
        k <= i,
        i + k < values@.len(),
    ensures
        out == is_pivot(values@, i as int, k as int, high),
{
    let n: usize = values.len();
    let mut j: usize = i - k;
    while j < i
        invariant
            n == values@.len(),
            i - k <= j <= i,
            k <= i,
            i + k < values@.len(),
            forall|a: int| i - k <= a < j ==> beyond(values@[i as int], #[trigger] values@[a], high),
        decreases i - j,
    {
        if !is_beyond(values[i], values[j], high) {
            return false;
        }
        j += 1;
    }
    j = i + 1;
    while j <= i + k
        invariant
            n == values@.len(),
            i + 1 <= j <= i + k + 1,
            k <= i,
            i + k < values@.len(),
            forall|a: int| i < a < j ==> !beyond(#[trigger] values@[a], values@[i as int], high),
        decreases i + k + 1 - j,
    {
        if is_beyond(values[j], values[i], high) {
            return false;
        }
        j += 1;
    }
    true
}

/// All pivots of a run, in order.
pub fn list_pivots(values: &[Key], k: usize, high: bool) -> (out: Vec<usize>)
    requires
        2 * k < usize::MAX,
    ensures
        out@.map_values(|i: usize| i as int) == all_pivots(values@, k as int, high),
{
    let mut out: Vec<usize> = Vec::new();
    let n: usize = values.len();
    let mut i: usize = 0;
    while i < n
        invariant
            i <= n,
            n == values@.len(),
            out@.map_values(|a: usize| a as int) =~= pivots_before(
                values@,
                i as int,
                k as int,
                high,
            ),
        decreases n - i,
    {
        if k <= i && k < n - i && check_pivot(values, i, k, high) {
            out.push(i);
        }
        i += 1;
    }
    out
}

} // verus!
