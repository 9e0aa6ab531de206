//! Rows gathered by a key.

use crate::history;
use crate::history::{copied, lower_bound, Stamped};
use vstd::prelude::*;

verus! {

/// The rows of one key.
#[derive(Clone, Debug, PartialEq, Eq)]
pub struct Group {
    pub key: i64,
    /// The places of the rows, in their order.
    pub places: Vec<usize>,
}

impl Stamped for Group {
    open spec fn at(&self) -> i64 {
        self.key
    }

    fn ts(&self) -> (out: i64) {
        self.key
    }
}

/// The places of the rows of a key among the first `hi`, in their order.
pub open spec fn places_of(keys: Seq<Option<i64>>, key: i64, hi: int) -> Seq<usize>
    decreases hi,
{
    if hi <= 0 {
        Seq::empty()
    } else if keys[hi - 1] == Some(key) {
        places_of(keys, key, hi - 1).push((hi - 1) as usize)
    } else {
        places_of(keys, key, hi - 1)
    }
}

/// Whether one of the groups has a key.
pub open spec fn has_key(groups: Seq<Group>, key: i64) -> bool {
    exists|g: int| 0 <= g < groups.len() && (#[trigger] groups[g]).key == key
}

/// Whether groups hold the first `hi` rows: one group for each key that a row has, in
/// the order of the keys.
pub open spec fn are_groups(groups: Seq<Group>, keys: Seq<Option<i64>>, hi: int) -> bool {
    &&& forall|a: int, b: int|
        0 <= a < b < groups.len() ==> (#[trigger] groups[a]).key < (#[trigger] groups[b]).key
    &&& forall|a: int|
        0 <= a < groups.len() ==> (#[trigger] groups[a]).places@ == places_of(
            keys,
            groups[a].key,
            hi,
        )
    &&& forall|a: int| 0 <= a < groups.len() ==> (#[trigger] groups[a]).places@.len() > 0
    &&& forall|i: int|
        0 <= i < hi && (#[trigger] keys[i]) is Some ==> has_key(groups, keys[i]->0)
}

/// The places of a key are those of its rows, each once and in order.
pub proof fn law_places_of(keys: Seq<Option<i64>>, key: i64, hi: int)
    requires
        0 <= hi <= keys.len(),
        keys.len() <= usize::MAX,
    ensures
        forall|p: int|
            0 <= p < places_of(keys, key, hi).len() ==> 0 <= #[trigger] places_of(
                keys,
                key,
                hi,
            )[p] < hi && keys[places_of(keys, key, hi)[p] as int] == Some(key),
        forall|p: int, q: int|
            0 <= p < q < places_of(keys, key, hi).len() ==> #[trigger] places_of(keys, key, hi)[p]
                < #[trigger] places_of(keys, key, hi)[q],
        forall|i: int|
            0 <= i < hi && #[trigger] keys[i] == Some(key) ==> places_of(keys, key, hi).contains(
                i as usize,
            ),
    decreases hi,
{
    if hi > 0 {
        law_places_of(keys, key, hi - 1);
        let rest = places_of(keys, key, hi - 1);
        let places = places_of(keys, key, hi);
        assert forall|i: int| 0 <= i < hi && #[trigger] keys[i] == Some(key) implies places.contains(
            i as usize,
        ) by {
            if i < hi - 1 {
                assert(rest.contains(i as usize));
                let p = choose|p: int| 0 <= p < rest.len() && rest[p] == i as usize;
                assert(places[p] == i as usize);
            } else {
                assert(places[places.len() - 1] == i as usize);
            }
        }
    }
}

/// There is one way only to gather rows: two groupings of the same rows have the same
/// keys and the same places.
pub proof fn law_groups_are_unique(
    a: Seq<Group>,
    b: Seq<Group>,
    keys: Seq<Option<i64>>,
    hi: int,
)
    requires
        0 <= hi <= keys.len(),
        keys.len() <= usize::MAX,
        are_groups(a, keys, hi),
        are_groups(b, keys, hi),
    ensures
        a.len() == b.len(),
        forall|g: int|
            0 <= g < a.len() ==> (#[trigger] a[g]).key == b[g].key && a[g].places@ == b[g].places@,
{
    assert forall|g: int| 0 <= g < a.len() && g < b.len() implies a[g].key == b[g].key by {
        lemma_same_order(a, b, keys, hi, g);
    }
    if a.len() < b.len() {
        lemma_key_is_shared(b, a, keys, hi, a.len() as int);
        let x = choose|x: int|
            0 <= x < a.len() && (#[trigger] a[x]).key == b[a.len() as int].key;
        assert(b[x].key < b[a.len() as int].key);
    }
    if b.len() < a.len() {
        lemma_key_is_shared(a, b, keys, hi, b.len() as int);
        let x = choose|x: int|
            0 <= x < b.len() && (#[trigger] b[x]).key == a[b.len() as int].key;
        assert(a[x].key < a[b.len() as int].key);
    }
    assert forall|g: int| 0 <= g < a.len() implies (#[trigger] a[g]).key == b[g].key
        && a[g].places@ == b[g].places@ by {
        assert(a[g].key == b[g].key);
        assert(b[g].places@ == places_of(keys, b[g].key, hi));
    }
}

proof fn lemma_key_is_shared(
    a: Seq<Group>,
    b: Seq<Group>,
    keys: Seq<Option<i64>>,
    hi: int,
    g: int,
)
    requires
        0 <= hi <= keys.len(),
        keys.len() <= usize::MAX,
        are_groups(a, keys, hi),
        are_groups(b, keys, hi),
        0 <= g < a.len(),
    ensures
        has_key(b, a[g].key),
{
    law_places_of(keys, a[g].key, hi);
    let places = places_of(keys, a[g].key, hi);
    assert(a[g].places@ == places);
    assert(places.len() > 0);
    let i = places[0] as int;
    assert(keys[i] == Some(a[g].key));
}

proof fn lemma_same_order(
    a: Seq<Group>,
    b: Seq<Group>,
    keys: Seq<Option<i64>>,
    hi: int,
    g: int,
)
    requires
        0 <= hi <= keys.len(),
        keys.len() <= usize::MAX,
        are_groups(a, keys, hi),
        are_groups(b, keys, hi),
        0 <= g < a.len(),
        g < b.len(),
    ensures
        a[g].key == b[g].key,
    decreases g,
{
    assert forall|k: int| 0 <= k < g implies a[k].key == b[k].key by {
        lemma_same_order(a, b, keys, hi, k);
    }
    lemma_key_is_shared(a, b, keys, hi, g);
    lemma_key_is_shared(b, a, keys, hi, g);
    let y = choose|y: int| 0 <= y < b.len() && (#[trigger] b[y]).key == a[g].key;
    let x = choose|x: int| 0 <= x < a.len() && (#[trigger] a[x]).key == b[g].key;
    if y < g {
        assert(a[y].key == b[y].key);
        assert(a[y].key < a[g].key);
    }
    if x < g {
        assert(a[x].key == b[x].key);
        assert(b[x].key < b[g].key);
    }
    if g < y && g < x {
        assert(b[g].key < b[y].key);
        assert(a[g].key < a[x].key);
    }
}

/// Gathers rows by their keys; a row without a key is left out.
pub fn gather(keys: &[Option<i64>]) -> (out: Vec<Group>)
    ensures
        are_groups(out@, keys@, keys@.len() as int),
{
    let mut out: Vec<Group> = Vec::new();
    let n: usize = keys.len();
    let mut i: usize = 0;
    while i < n
        invariant
            i <= n,
            n == keys@.len(),
            are_groups(out@, keys@, i as int),
        decreases n - i,
    {
        let ghost before = out@;
        if let Some(key) = keys[i] {
            let at: usize = lower_bound(&out, key);
            proof {
                let ts = history::stamps(out@);
                assert forall|a: int, b: int| 0 <= a <= b < ts.len() implies ts[a] <= ts[b] by {
                    if a < b {
                        assert(before[a].key < before[b].key);
                    }
                }
                history::lemma_first_at_or_after(ts, key);
                assert forall|a: int| 0 <= a < at implies (#[trigger] before[a]).key < key by {
                    assert(ts[a] < key);
                }
                assert forall|a: int| at <= a < before.len() implies (#[trigger] before[a]).key
                    >= key by {
                    assert(ts[a] >= key);
                }
            }
            if at < out.len() && out[at].key == key {
                out[at].places.push(i);
                proof {
                    assert(forall|a: int|
                        0 <= a < before.len() && a != at ==> #[trigger] out@[a] == before[a]);
                    assert(out@[at as int].key == key);
                    lemma_added(before, out@, keys@, i as int, key, at as int);
                }
            } else {
                let mut places: Vec<usize> = Vec::new();
                places.push(i);
                let fresh: Group = Group { key, places };
                assert(fresh.places@ =~= seq![i]);
                out.insert(at, fresh);
                proof {
                    assert(out@ =~= before.insert(at as int, fresh));
                    lemma_opened(before, out@, keys@, i as int, key, at as int, fresh);
                }
            }
        } else {
            proof {
                assert(keys@[i as int] is None);
                assert forall|a: int| 0 <= a < out@.len() implies (#[trigger] out@[a]).places@
                    == places_of(keys@, out@[a].key, i + 1) by {}
            }
        }
        i += 1;
    }
    out
}

proof fn lemma_added(
    before: Seq<Group>,
    after: Seq<Group>,
    keys: Seq<Option<i64>>,
    hi: int,
    key: i64,
    at: int,
)
    requires
        0 <= hi < keys.len(),
        keys.len() <= usize::MAX,
        are_groups(before, keys, hi),
        keys[hi] == Some(key),
        0 <= at < before.len(),
        before[at].key == key,
        after.len() == before.len(),
        after[at].key == key,
        after[at].places@ == before[at].places@.push(hi as usize),
        forall|a: int| 0 <= a < before.len() && a != at ==> #[trigger] after[a] == before[a],
    ensures
        are_groups(after, keys, hi + 1),
{
    assert forall|a: int, b: int| 0 <= a < b < after.len() implies (#[trigger] after[a]).key < (
    #[trigger] after[b]).key by {
        assert(before[a].key < before[b].key);
    }
    assert forall|a: int| 0 <= a < after.len() implies (#[trigger] after[a]).places@ == places_of(
        keys,
        after[a].key,
        hi + 1,
    ) by {
        assert(before[a].places@ == places_of(keys, before[a].key, hi));
        if a < at {
            assert(before[a].key < before[at].key);
        } else if a > at {
            assert(before[at].key < before[a].key);
        }
    }
    assert forall|i: int| 0 <= i < hi + 1 && (#[trigger] keys[i]) is Some implies has_key(
        after,
        keys[i]->0,
    ) by {
        if i < hi {
            assert(has_key(before, keys[i]->0));
            let g = choose|g: int|
                0 <= g < before.len() && (#[trigger] before[g]).key == keys[i]->0;
            assert(after[g].key == keys[i]->0);
        } else {
            assert(after[at].key == key);
        }
    }
    assert forall|a: int| 0 <= a < after.len() implies (#[trigger] after[a]).places@.len() > 0 by {
        if a != at {
            assert(before[a].places@.len() > 0);
        }
    }
}

proof fn lemma_opened(
    before: Seq<Group>,
    after: Seq<Group>,
    keys: Seq<Option<i64>>,
    hi: int,
    key: i64,
    at: int,
    fresh: Group,
)
    requires
        0 <= hi < keys.len(),
        keys.len() <= usize::MAX,
        are_groups(before, keys, hi),
        keys[hi] == Some(key),
        0 <= at <= before.len(),
        forall|a: int| 0 <= a < at ==> (#[trigger] before[a]).key < key,
        forall|a: int| at <= a < before.len() ==> (#[trigger] before[a]).key >= key,
        at < before.len() ==> before[at].key != key,
        fresh.key == key,
        fresh.places@ == seq![hi as usize],
        after == before.insert(at, fresh),
    ensures
        are_groups(after, keys, hi + 1),
{
    assert(!has_key(before, key)) by {
        if has_key(before, key) {
            let g = choose|g: int| 0 <= g < before.len() && (#[trigger] before[g]).key == key;
            if g > at {
                assert(before[at].key < before[g].key);
                assert(before[at].key >= key);
            }
        }
    }
    law_places_of(keys, key, hi);
    assert(places_of(keys, key, hi) =~= Seq::<usize>::empty()) by {
        let places = places_of(keys, key, hi);
        if places.len() > 0 {
            let i = places[0] as int;
            assert(keys[i] == Some(key));
            assert(has_key(before, keys[i]->0));
        }
    }
    assert forall|a: int| 0 <= a < after.len() implies #[trigger] after[a] == if a < at {
        before[a]
    } else if a == at {
        fresh
    } else {
        before[a - 1]
    } by {}
    assert forall|a: int, b: int| 0 <= a < b < after.len() implies (#[trigger] after[a]).key < (
    #[trigger] after[b]).key by {
        if b < at {
            assert(before[a].key < before[b].key);
        } else if a > at {
            assert(before[a - 1].key < before[b - 1].key);
        } else if a == at {
            assert(before[b - 1].key >= key);
            if b - 1 > at {
                assert(before[at].key < before[b - 1].key);
            }
        } else if b == at {
            assert(before[a].key < key);
        } else {
            assert(before[a].key < key);
            assert(before[b - 1].key >= key);
        }
    }
    assert forall|a: int| 0 <= a < after.len() implies (#[trigger] after[a]).places@ == places_of(
        keys,
        after[a].key,
        hi + 1,
    ) by {
        if a < at {
            assert(before[a].places@ == places_of(keys, before[a].key, hi));
        } else if a > at {
            assert(before[a - 1].places@ == places_of(keys, before[a - 1].key, hi));
            assert(before[a - 1].key != key) by {
                assert(!has_key(before, key));
            }
        } else {
            assert(places_of(keys, key, hi + 1) =~= seq![hi as usize]);
        }
    }
    assert forall|i: int| 0 <= i < hi + 1 && (#[trigger] keys[i]) is Some implies has_key(
        after,
        keys[i]->0,
    ) by {
        if i < hi {
            assert(has_key(before, keys[i]->0));
            let g = choose|g: int|
                0 <= g < before.len() && (#[trigger] before[g]).key == keys[i]->0;
            if g < at {
                assert(after[g].key == keys[i]->0);
            } else {
                assert(after[g + 1].key == keys[i]->0);
            }
        } else {
            assert(after[at].key == key);
        }
    }
    assert forall|a: int| 0 <= a < after.len() implies (#[trigger] after[a]).places@.len() > 0 by {
        if a < at {
            assert(before[a].places@.len() > 0);
        } else if a > at {
            assert(before[a - 1].places@.len() > 0);
        }
    }
}

/// The places of a key, copied out of the groups; none where no row has it.
pub(crate) fn find(groups: &[Group], key: i64, Ghost(keys): Ghost<Seq<Option<i64>>>) -> (out: Vec<usize>)
    requires
        are_groups(groups@, keys, keys.len() as int),
        keys.len() <= usize::MAX,
    ensures
        out@ == places_of(keys, key, keys.len() as int),
{
    let at: usize = lower_bound(groups, key);
    proof {
        let ts = history::stamps(groups@);
        assert forall|a: int, b: int| 0 <= a <= b < ts.len() implies ts[a] <= ts[b] by {
            if a < b {
                assert(groups@[a].key < groups@[b].key);
            }
        }
        history::lemma_first_at_or_after(ts, key);
    }
    let mut out: Vec<usize> = Vec::new();
    if at < groups.len() && groups[at].key == key {
        out = copied(&groups[at].places);
        assert(out@ =~= groups@[at as int].places@);
    } else {
        proof {
            let ts = history::stamps(groups@);
            law_places_of(keys, key, keys.len() as int);
            let places = places_of(keys, key, keys.len() as int);
            if places.len() > 0 {
                let i = places[0] as int;
                assert(keys[i] == Some(key));
                assert(has_key(groups@, key));
                let g = choose|g: int|
                    0 <= g < groups@.len() && (#[trigger] groups@[g]).key == key;
                assert(ts[g] == key);
                if g > at {
                    assert(groups@[at as int].key < groups@[g].key);
                    assert(ts[at as int] >= key);
                }
            }
            assert(out@ =~= places);
        }
    }
    out
}

} // verus!
