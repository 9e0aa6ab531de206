//! Price levels by their weight.

use vstd::prelude::*;

use crate::order::Key;

verus! {

/// Whether one level comes no later than another: heavier first, then the lower tick.
pub open spec fn no_later(a: (i64, Key), b: (i64, Key)) -> bool {
    if a.1 != b.1 {
        a.1 > b.1
    } else {
        a.0 <= b.0
    }
}

/// Whether levels are in order.
pub open spec fn is_ranked(rows: Seq<(i64, Key)>) -> bool {
    forall|i: int, j: int|
        0 <= i <= j < rows.len() ==> no_later(#[trigger] rows[i], #[trigger] rows[j])
}

/// A ranked run with one more level put in its place.
pub open spec fn put_in(ranked: Seq<(i64, Key)>, row: (i64, Key)) -> Seq<(i64, Key)>
    decreases ranked.len(),
{
    if ranked.len() == 0 || no_later(ranked.last(), row) {
        ranked.push(row)
    } else {
        put_in(ranked.drop_last(), row).push(ranked.last())
    }
}

/// The levels in order.
pub open spec fn ranked(rows: Seq<(i64, Key)>) -> Seq<(i64, Key)>
    decreases rows.len(),
{
    if rows.len() == 0 {
        Seq::empty()
    } else {
        put_in(ranked(rows.drop_last()), rows.last())
    }
}

proof fn lemma_put_in(sorted: Seq<(i64, Key)>, row: (i64, Key))
    requires
        is_ranked(sorted),
    ensures
        put_in(sorted, row).len() == sorted.len() + 1,
        put_in(sorted, row).to_multiset() == sorted.to_multiset().insert(row),
        is_ranked(put_in(sorted, row)),
        forall|i: int|
            0 <= i < sorted.len() + 1 ==> (#[trigger] put_in(sorted, row)[i]) == row
                || sorted.contains(put_in(sorted, row)[i]),
    decreases sorted.len(),
{
    broadcast use vstd::seq_lib::group_to_multiset_ensures;

    let out = put_in(sorted, row);
    if sorted.len() == 0 || no_later(sorted.last(), row) {
        assert forall|i: int, j: int| 0 <= i <= j < out.len() implies no_later(
            #[trigger] out[i],
            #[trigger] out[j],
        ) by {
            if j == sorted.len() && i < j {
                assert(no_later(sorted[i], sorted.last()));
            }
        }
        assert forall|i: int| 0 <= i < out.len() implies (#[trigger] out[i]) == row
            || sorted.contains(out[i]) by {
            if i < sorted.len() {
                assert(sorted[i] == out[i]);
            }
        }
    } else {
        let rest = sorted.drop_last();
        let inner = put_in(rest, row);
        lemma_put_in(rest, row);
        assert(sorted =~= rest.push(sorted.last()));
        assert(out.to_multiset() =~= sorted.to_multiset().insert(row));
        assert forall|i: int, j: int| 0 <= i <= j < out.len() implies no_later(
            #[trigger] out[i],
            #[trigger] out[j],
        ) by {
            if j == inner.len() && i < j {
                assert(out[i] == inner[i]);
                if inner[i] != row {
                    let a = choose|a: int| 0 <= a < rest.len() && rest[a] == inner[i];
                    assert(no_later(sorted[a], sorted.last()));
                }
            } else if j < inner.len() {
                assert(out[i] == inner[i] && out[j] == inner[j]);
            }
        }
        assert forall|i: int| 0 <= i < out.len() implies (#[trigger] out[i]) == row
            || sorted.contains(out[i]) by {
            if i < inner.len() {
                assert(out[i] == inner[i]);
                if inner[i] != row {
                    let a = choose|a: int| 0 <= a < rest.len() && rest[a] == inner[i];
                    assert(sorted[a] == out[i]);
                }
            } else {
                assert(sorted[sorted.len() - 1] == out[i]);
            }
        }
    }
}

/// Ranking loses no level, adds none and leaves them in order.
pub proof fn law_ranked(rows: Seq<(i64, Key)>)
    ensures
        ranked(rows).len() == rows.len(),
        ranked(rows).to_multiset() == rows.to_multiset(),
        is_ranked(ranked(rows)),
        forall|i: int| 0 <= i < rows.len() ==> rows.contains(#[trigger] ranked(rows)[i]),
    decreases rows.len(),
{
    broadcast use vstd::seq_lib::group_to_multiset_ensures;

    if rows.len() > 0 {
        let rest = rows.drop_last();
        law_ranked(rest);
        lemma_put_in(ranked(rest), rows.last());
        assert(rows =~= rest.push(rows.last()));
        assert forall|i: int| 0 <= i < rows.len() implies rows.contains(
            #[trigger] ranked(rows)[i],
        ) by {
            let row = ranked(rows)[i];
            if row != rows.last() {
                assert(ranked(rest).contains(row));
                let j = choose|j: int| 0 <= j < ranked(rest).len() && ranked(rest)[j] == row;
                assert(rest.contains(ranked(rest)[j]));
                let k = choose|k: int| 0 <= k < rest.len() && rest[k] == row;
                assert(rows[k] == row);
            } else {
                assert(rows[rows.len() - 1] == row);
            }
        }
    } else {
        assert(ranked(rows) =~= rows);
    }
}

/// The order that levels come in does not tell how they rank.
pub proof fn law_ranking_ignores_order(a: Seq<(i64, Key)>, b: Seq<(i64, Key)>)
    requires
        a.to_multiset() == b.to_multiset(),
    ensures
        ranked(a) == ranked(b),
        forall|k: int| #[trigger] top_ticks(a, k) == top_ticks(b, k),
{
    law_ranked(a);
    law_ranked(b);
    let leq = |x: (i64, Key), y: (i64, Key)| no_later(x, y);
    assert(vstd::relations::total_ordering(leq));
    assert(vstd::relations::sorted_by(ranked(a), leq));
    assert(vstd::relations::sorted_by(ranked(b), leq));
    vstd::seq_lib::lemma_sorted_unique(ranked(a), ranked(b), leq);
    assert forall|k: int| #[trigger] top_ticks(a, k) == top_ticks(b, k) by {
        assert(top_ticks(a, k) =~= top_ticks(b, k));
    }
}

/// Puts levels in order: heavier first, then the lower tick.
pub fn sort_desc_by_value_then_tick(rows: &mut Vec<(i64, Key)>)
    ensures
        final(rows)@ == ranked(old(rows)@),
{
    let mut out: Vec<(i64, Key)> = Vec::new();
    let mut i: usize = 0;
    proof {
        assert(rows@.take(0) =~= Seq::empty());
    }
    while i < rows.len()
        invariant
            i <= rows@.len(),
            rows@ == old(rows)@,
            out@ == ranked(rows@.take(i as int)),
        decreases rows@.len() - i,
    {
        let row: (i64, Key) = rows[i];
        let ghost sorted = out@;
        let mut at: usize = out.len();
        proof {
            assert(sorted.take(at as int) =~= sorted);
            assert(put_in(sorted, row) + sorted.subrange(at as int, sorted.len() as int) =~= put_in(
                sorted,
                row,
            ));
        }
        while at > 0 && !(out[at - 1].1 > row.1 || (out[at - 1].1 == row.1 && out[at - 1].0
            <= row.0))
            invariant
                at <= out@.len(),
                out@ == sorted,
                put_in(sorted, row) == put_in(sorted.take(at as int), row) + sorted.subrange(
                    at as int,
                    sorted.len() as int,
                ),
            decreases at,
        {
            proof {
                let t = sorted.take(at as int);
                assert(t.last() == sorted[at - 1]);
                assert(t.drop_last() =~= sorted.take(at - 1));
                assert(put_in(sorted.take(at - 1), row).push(sorted[at - 1]) + sorted.subrange(
                    at as int,
                    sorted.len() as int,
                ) =~= put_in(sorted.take(at - 1), row) + sorted.subrange(
                    at - 1,
                    sorted.len() as int,
                ));
            }
            at -= 1;
        }
        out.insert(at, row);
        proof {
            let t = sorted.take(at as int);
            if at > 0 {
                assert(t.last() == sorted[at - 1]);
            }
            assert(put_in(t, row) == t.push(row));
            assert(out@ =~= t.push(row) + sorted.subrange(at as int, sorted.len() as int));
            assert(rows@.take(i + 1).drop_last() =~= rows@.take(i as int));
            assert(rows@.take(i + 1).last() == row);
        }
        i += 1;
    }
    proof {
        assert(rows@.take(i as int) =~= rows@);
    }
    *rows = out;
}

/// The ticks of the `k` heaviest levels.
pub open spec fn top_ticks(rows: Seq<(i64, Key)>, k: int) -> Set<i64> {
    Set::new(|tick: i64| exists|i: int| 0 <= i < k && i < rows.len() && (#[trigger] ranked(rows)[i]).0 == tick)
}

/// Of two levels in order the earlier one is the heavier, or as heavy at no higher a tick.
pub proof fn law_heavier_first(rows: Seq<(i64, Key)>, i: int, j: int)
    requires
        0 <= i < j < rows.len(),
    ensures
        ranked(rows).len() == rows.len(),
        ranked(rows)[i].1 > ranked(rows)[j].1 || (ranked(rows)[i].1 == ranked(rows)[j].1 && ranked(
            rows,
        )[i].0 <= ranked(rows)[j].0),
{
    law_ranked(rows);
    assert(no_later(ranked(rows)[i], ranked(rows)[j]));
}

} // verus!
