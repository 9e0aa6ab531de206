//! Queues of instants that forget what lies too far back.

use crate::history;
use crate::history::{lower_bound_queue, Stamped};
use std::collections::VecDeque;
use vstd::prelude::*;

verus! {

/// Whether an instant is no later than a limit.
pub open spec fn is_upto(limit: int) -> spec_fn(i64) -> bool {
    |t: i64| t <= limit
}

/// A queue after an instant came in and those up to a limit fell out at its front.
pub open spec fn rolled(held: Seq<i64>, ts: i64, limit: int) -> Seq<i64> {
    history::drop_while(held.push(ts), is_upto(limit))
}

impl Stamped for i64 {
    open spec fn at(&self) -> i64 {
        *self
    }

    fn ts(&self) -> (out: i64) {
        *self
    }
}

/// A queue of instants.
#[derive(Clone, Debug)]
pub struct Trail {
    held: VecDeque<i64>,
}

impl View for Trail {
    type V = Seq<i64>;

    closed spec fn view(&self) -> Seq<i64> {
        self.held@
    }
}

impl Trail {
    /// An empty queue.
    pub fn new() -> (out: Self)
        ensures
            out@ == Seq::<i64>::empty(),
    {
        Trail { held: VecDeque::new() }
    }

    /// How many instants there are.
    pub fn len(&self) -> (out: usize)
        ensures
            out == self@.len(),
    {
        self.held.len()
    }

    /// The instant at a place.
    pub fn at(&self, i: usize) -> (out: i64)
        requires
            i < self@.len(),
        ensures
            out == self@[i as int],
    {
        self.held[i]
    }

    /// The place of the first instant that is not before `target`, as bisection finds it.
    pub fn first_from(&self, target: i64) -> (out: usize)
        ensures
            out == history::first_at_or_after(self@, target),
            out <= self@.len(),
    {
        assert(history::stamps(self.held@) =~= self.held@);
        lower_bound_queue(&self.held, target)
    }

    /// Takes an instant in.
    pub fn push(&mut self, ts: i64)
        ensures
            final(self)@ == old(self)@.push(ts),
    {
        self.held.push_back(ts);
    }

    /// Lets the instants up to a limit fall out at the front; how many did.
    pub fn drop_upto(&mut self, limit: i64) -> (out: usize)
        ensures
            final(self)@ == history::drop_while(old(self)@, is_upto(limit as int)),
            out == old(self)@.len() - final(self)@.len(),
    {
        let held: usize = self.held.len();
        let ghost gone = is_upto(limit as int);
        while self.held.len() > 0 && self.held[0] <= limit
            invariant
                gone == is_upto(limit as int),
                history::drop_while(self.held@, gone) == history::drop_while(
                    old(self).held@,
                    gone,
                ),
                self.held@.len() <= held,
            decreases self.held@.len(),
        {
            let ghost before = self.held@;
            proof {
                assert(gone(before[0]));
            }
            let _ = self.held.pop_front();
            assert(self.held@ =~= before.drop_first());
        }
        proof {
            if self.held@.len() > 0 {
                assert(!gone(self.held@[0]));
            }
            history::lemma_drop_while_none(self.held@, gone);
        }
        held - self.held.len()
    }
}

/// The instants of a run that are later than a limit.
pub open spec fn later_than(ts: Seq<i64>, limit: int) -> Seq<i64>
    decreases ts.len(),
{
    if ts.len() == 0 {
        ts
    } else if ts.last() > limit {
        later_than(ts.drop_last(), limit).push(ts.last())
    } else {
        later_than(ts.drop_last(), limit)
    }
}

/// The instants later than a limit are the end of a run that is split there.
pub proof fn lemma_later_than(ts: Seq<i64>, limit: int, k: int)
    requires
        0 <= k <= ts.len(),
        forall|i: int| 0 <= i < k ==> #[trigger] ts[i] <= limit,
        forall|i: int| k <= i < ts.len() ==> #[trigger] ts[i] > limit,
    ensures
        later_than(ts, limit) == ts.subrange(k, ts.len() as int),
    decreases ts.len(),
{
    if ts.len() > 0 {
        if k == ts.len() {
            lemma_later_than(ts.drop_last(), limit, k - 1);
            assert(later_than(ts, limit) =~= ts.subrange(k, ts.len() as int));
        } else {
            lemma_later_than(ts.drop_last(), limit, k);
            assert(later_than(ts, limit) =~= ts.subrange(k, ts.len() as int));
        }
    } else {
        assert(later_than(ts, limit) =~= ts.subrange(k, ts.len() as int));
    }
}

/// A queue that took in the instants of a run in order and forgot those up to a limit
/// that only moves on holds exactly the instants of the run later than the limit.
pub proof fn law_rolled_holds_the_later(ts: Seq<i64>, t: i64, old_limit: int, limit: int)
    requires
        history::in_order(ts.push(t)),
        old_limit <= limit,
    ensures
        rolled(later_than(ts, old_limit), t, limit) == later_than(ts.push(t), limit),
{
    let all = ts.push(t);
    let held = later_than(ts, old_limit);
    let k = split(all, limit);
    lemma_split(all, limit);
    lemma_later_than(all, limit, k);
    let j = split(ts, old_limit);
    assert(history::in_order(ts)) by {
        assert forall|a: int, b: int| 0 <= a <= b < ts.len() implies ts[a] <= ts[b] by {
            assert(all[a] <= all[b]);
        }
    }
    lemma_split(ts, old_limit);
    lemma_later_than(ts, old_limit, j);
    let queue = held.push(t);
    assert(queue =~= all.subrange(j, all.len() as int));
    assert(j <= k) by {
        if k < j {
            assert(all[k] > limit);
            assert(ts[k] == all[k]);
            assert(ts[k] <= old_limit);
        }
    }
    let gone = is_upto(limit);
    let d = history::lemma_drop_while(queue, gone);
    assert(d == k - j) by {
        if d < k - j {
            assert(queue[d] == all[j + d]);
            assert(all[j + d] <= limit);
            assert(gone(queue[d]));
        }
        if d > k - j {
            assert(gone(queue[k - j]));
            assert(queue[k - j] == all[k]);
        }
    }
    assert(queue.subrange(d, queue.len() as int) =~= all.subrange(k, all.len() as int));
}

/// How many instants of a run come before the first that is later than a limit.
spec fn split(ts: Seq<i64>, limit: int) -> int
    decreases ts.len(),
{
    if ts.len() == 0 {
        0
    } else if ts.last() > limit {
        split(ts.drop_last(), limit)
    } else {
        ts.len() as int
    }
}

proof fn lemma_split(ts: Seq<i64>, limit: int)
    requires
        history::in_order(ts),
    ensures
        0 <= split(ts, limit) <= ts.len(),
        forall|i: int| 0 <= i < split(ts, limit) ==> #[trigger] ts[i] <= limit,
        forall|i: int| split(ts, limit) <= i < ts.len() ==> #[trigger] ts[i] > limit,
    decreases ts.len(),
{
    if ts.len() > 0 && ts.last() > limit {
        let rest = ts.drop_last();
        assert(history::in_order(rest)) by {
            assert forall|a: int, b: int| 0 <= a <= b < rest.len() implies rest[a] <= rest[b] by {
                assert(ts[a] <= ts[b]);
            }
        }
        lemma_split(rest, limit);
        assert forall|i: int| 0 <= i < split(ts, limit) implies #[trigger] ts[i] <= limit by {
            assert(rest[i] <= limit);
        }
        assert forall|i: int| split(ts, limit) <= i < ts.len() implies #[trigger] ts[i]
            > limit by {
            if i < ts.len() - 1 {
                assert(rest[i] > limit);
            }
        }
    } else if ts.len() > 0 {
        assert forall|i: int| 0 <= i < ts.len() implies #[trigger] ts[i] <= limit by {
            assert(ts[i] <= ts[ts.len() - 1]);
        }
    }
}

/// A queue in order that rolls holds the instants it held and the new one, as far as they are
/// later than the limit.
pub proof fn law_rolled(held: Seq<i64>, ts: i64, limit: int, t: i64)
    requires
        history::in_order(held.push(ts)),
    ensures
        rolled(held, ts, limit).contains(t) <==> (held.contains(t) || t == ts) && t > limit,
{
    let all = held.push(ts);
    lemma_dropped(all, limit, t);
    if all.contains(t) {
        let a = choose|a: int| 0 <= a < all.len() && all[a] == t;
        if a < held.len() {
            assert(held[a] == t);
        }
    }
    if held.contains(t) {
        let a = choose|a: int| 0 <= a < held.len() && held[a] == t;
        assert(all[a] == t);
    }
    assert(all[held.len() as int] == ts);
}

/// What stays of a queue in order where those up to a limit fall out are the later ones.
pub proof fn lemma_dropped(all: Seq<i64>, limit: int, t: i64)
    requires
        history::in_order(all),
    ensures
        history::drop_while(all, is_upto(limit)).contains(t) <==> all.contains(t) && t > limit,
{
    let k = history::lemma_drop_while(all, is_upto(limit));
    let kept = history::drop_while(all, is_upto(limit));
    if kept.contains(t) {
        let a = choose|a: int| 0 <= a < kept.len() && kept[a] == t;
        assert(all[k + a] == t);
        assert(all[k] <= all[k + a]);
    }
    if all.contains(t) && t > limit {
        let a = choose|a: int| 0 <= a < all.len() && all[a] == t;
        assert(a >= k) by {
            if a < k {
                assert(is_upto(limit)(all[a]));
            }
        }
        assert(kept[a - k] == t);
    }
}

} // verus!
