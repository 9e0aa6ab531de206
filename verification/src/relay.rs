//! Carrying intents into the outbox and clearing both afterwards; sending snapshots on,
//! minute by minute.

use crate::outbox::PublishOutcome;
use crate::text;
use crate::text::to_uppercase;
use std::collections::HashSet;
use std::hash::Hash;
use vstd::prelude::*;

verus! {

broadcast use vstd::std_specs::hash::group_hash_axioms;

/// No more rounds than this are made before the relay waits again.
pub const RELAY_MAX_BATCHES_PER_WAKE: usize = 16;

/// From how many milliseconds on carrying a batch counts as slow.
pub const RELAY_WARN_MS: u128 = 2_000;

/// No more minutes than this are sent on before the projector waits again.
pub const SNAPSHOT_FANOUT_MAX_MINUTES_PER_WAKE: usize = 4;

/// A row of the outbox with the intent it came from, where that is known; else it is
/// found by its message.
#[derive(Clone, Copy, Debug, PartialEq, Eq)]
pub struct SourcedRow {
    pub outbox_id: i64,
    pub source_intent_id: Option<i64>,
    pub message_id: u128,
}

/// What rows of the outbox go back to.
#[derive(Clone, Debug, PartialEq, Eq)]
pub struct Sources {
    /// The intents that the rows name.
    pub intent_ids: Vec<i64>,
    /// The messages of the rows that name no intent.
    pub message_ids: Vec<u128>,
    /// The rows themselves.
    pub outbox_ids: Vec<i64>,
}

/// The intents that the first `hi` rows name, in their order.
pub open spec fn named_intents(rows: Seq<SourcedRow>, hi: int) -> Seq<i64>
    decreases hi,
{
    if hi <= 0 {
        Seq::empty()
    } else {
        match rows[hi - 1].source_intent_id {
            Some(id) => named_intents(rows, hi - 1).push(id),
            None => named_intents(rows, hi - 1),
        }
    }
}

/// The messages of the first `hi` rows that name no intent, in their order.
pub open spec fn unnamed_messages(rows: Seq<SourcedRow>, hi: int) -> Seq<u128>
    decreases hi,
{
    if hi <= 0 {
        Seq::empty()
    } else if rows[hi - 1].source_intent_id is None {
        unnamed_messages(rows, hi - 1).push(rows[hi - 1].message_id)
    } else {
        unnamed_messages(rows, hi - 1)
    }
}

/// What rows of the outbox go back to.
pub fn sources(rows: &[SourcedRow]) -> (out: Sources)
    ensures
        out.intent_ids@ == named_intents(rows@, rows@.len() as int),
        out.message_ids@ == unnamed_messages(rows@, rows@.len() as int),
        out.outbox_ids@ == rows@.map_values(|r: SourcedRow| r.outbox_id),
{
    let mut intent_ids: Vec<i64> = Vec::new();
    let mut message_ids: Vec<u128> = Vec::new();
    let mut outbox_ids: Vec<i64> = Vec::new();
    let mut i: usize = 0;
    while i < rows.len()
        invariant
            i <= rows@.len(),
            intent_ids@ == named_intents(rows@, i as int),
            message_ids@ == unnamed_messages(rows@, i as int),
            outbox_ids@.len() == i,
            forall|j: int| 0 <= j < i ==> #[trigger] outbox_ids@[j] == rows@[j].outbox_id,
        decreases rows@.len() - i,
    {
        let row: SourcedRow = rows[i];
        match row.source_intent_id {
            Some(id) => {
                intent_ids.push(id);
            },
            None => {
                message_ids.push(row.message_id);
            },
        }
        outbox_ids.push(row.outbox_id);
        i += 1;
    }
    assert(outbox_ids@ =~= rows@.map_values(|r: SourcedRow| r.outbox_id));
    Sources { intent_ids, message_ids, outbox_ids }
}

/// Whether the intent of a row is gone.
pub open spec fn is_orphaned(row: SourcedRow, intents: Seq<i64>, messages: Seq<u128>) -> bool {
    match row.source_intent_id {
        Some(id) => !intents.contains(id),
        None => !messages.contains(row.message_id),
    }
}

/// The first `hi` rows whose intents are gone, in their order.
pub open spec fn orphans(
    rows: Seq<SourcedRow>,
    intents: Seq<i64>,
    messages: Seq<u128>,
    hi: int,
) -> Seq<i64>
    decreases hi,
{
    if hi <= 0 {
        Seq::empty()
    } else if is_orphaned(rows[hi - 1], intents, messages) {
        orphans(rows, intents, messages, hi - 1).push(rows[hi - 1].outbox_id)
    } else {
        orphans(rows, intents, messages, hi - 1)
    }
}

/// The rows whose intents are gone: neither the intent that the row names nor, where it
/// names none, one of its message is among the given.
pub fn orphaned_outbox_ids(
    rows: &[SourcedRow],
    existing_intent_ids: &[i64],
    existing_message_ids: &[u128],
) -> (out: Vec<i64>)
    ensures
        out@ == orphans(
            rows@,
            existing_intent_ids@,
            existing_message_ids@,
            rows@.len() as int,
        ),
{
    broadcast use vstd::std_specs::hash::group_hash_axioms;

    let intents: HashSet<i64> = id_set(existing_intent_ids);
    let messages: HashSet<u128> = id_set(existing_message_ids);
    let mut out: Vec<i64> = Vec::new();
    let mut i: usize = 0;
    while i < rows.len()
        invariant
            i <= rows@.len(),
            forall|id: i64| #[trigger] intents@.contains(id) <==> existing_intent_ids@.contains(id),
            forall|id: u128| #[trigger]
                messages@.contains(id) <==> existing_message_ids@.contains(id),
            out@ == orphans(rows@, existing_intent_ids@, existing_message_ids@, i as int),
        decreases rows@.len() - i,
    {
        broadcast use vstd::std_specs::hash::group_hash_axioms;

        let row: SourcedRow = rows[i];
        let gone: bool = match row.source_intent_id {
            Some(id) => !intents.contains(&id),
            None => !messages.contains(&row.message_id),
        };
        if gone {
            out.push(row.outbox_id);
        }
        i += 1;
    }
    out
}

/// The ids of a list as a set.
fn id_set<K: Copy + Eq + Hash>(ids: &[K]) -> (out: HashSet<K>)
    requires
        vstd::std_specs::hash::obeys_key_model::<K>(),
    ensures
        forall|id: K| #[trigger] out@.contains(id) <==> ids@.contains(id),
{
    let mut out: HashSet<K> = HashSet::new();
    let mut i: usize = 0;
    while i < ids.len()
        invariant
            vstd::std_specs::hash::obeys_key_model::<K>(),
            i <= ids@.len(),
            forall|id: K| #[trigger] out@.contains(id) <==> ids@.take(i as int).contains(id),
        decreases ids@.len() - i,
    {
        broadcast use vstd::std_specs::hash::group_hash_axioms;

        let ghost before = ids@.take(i as int);
        out.insert(ids[i]);
        proof {
            let now = ids@.take(i + 1);
            assert(now =~= before.push(ids@[i as int]));
            assert forall|id: K| #[trigger] out@.contains(id) <==> now.contains(id) by {
                if before.contains(id) {
                    let j = choose|j: int| 0 <= j < before.len() && before[j] == id;
                    assert(now[j] == id);
                }
                if id == ids@[i as int] {
                    assert(now[i as int] == id);
                }
                if now.contains(id) && id != ids@[i as int] {
                    let j = choose|j: int| 0 <= j < now.len() && now[j] == id;
                    assert(before[j] == id);
                }
            }
        }
        i += 1;
    }
    assert(ids@.take(i as int) =~= ids@);
    out
}

/// No row is cleared away while its intent stands: the rows that are cleared are those
/// whose intent is not found among the existing ones that the rows go back to.
pub proof fn law_rows_with_intents_stay(
    rows: Seq<SourcedRow>,
    intents: Seq<i64>,
    messages: Seq<u128>,
    k: int,
)
    requires
        0 <= k < rows.len(),
        !is_orphaned(rows[k], intents, messages),
        forall|a: int, b: int|
            0 <= a < b < rows.len() ==> (#[trigger] rows[a]).outbox_id != (
            #[trigger] rows[b]).outbox_id,
    ensures
        !orphans(rows, intents, messages, rows.len() as int).contains(rows[k].outbox_id),
{
    lemma_orphan_is_orphaned(rows, intents, messages, rows.len() as int, rows[k].outbox_id);
}

proof fn lemma_orphan_is_orphaned(
    rows: Seq<SourcedRow>,
    intents: Seq<i64>,
    messages: Seq<u128>,
    hi: int,
    id: i64,
)
    requires
        0 <= hi <= rows.len(),
    ensures
        orphans(rows, intents, messages, hi).contains(id) ==> exists|j: int|
            0 <= j < hi && (#[trigger] rows[j]).outbox_id == id && is_orphaned(
                rows[j],
                intents,
                messages,
            ),
    decreases hi,
{
    if hi > 0 {
        lemma_orphan_is_orphaned(rows, intents, messages, hi - 1, id);
        let now = orphans(rows, intents, messages, hi);
        let before = orphans(rows, intents, messages, hi - 1);
        if now.contains(id) {
            let x = choose|x: int| 0 <= x < now.len() && now[x] == id;
            if x < before.len() {
                assert(before[x] == id);
                assert(before.contains(id));
            } else {
                assert(rows[hi - 1].outbox_id == id);
            }
        }
    }
}

/// How many indicators a bundle made again for an intent says it holds: what the intent
/// says, or how many snapshots there are, whichever is more.
pub fn relayed_count(intent_count: i32, rows: usize) -> (out: i32)
    ensures
        out == if intent_count >= rows as i32 {
            intent_count
        } else {
            rows as i32
        },
{
    let found: i32 = #[verifier::truncate]
    (rows as i32);
    if intent_count >= found {
        intent_count
    } else {
        found
    }
}

/// Whether a round of the relay got anything done.
pub fn made_progress(finalized: bool, pruned: bool, mirrored: bool) -> (out: bool)
    ensures
        out == (finalized || pruned || mirrored),
{
    finalized || pruned || mirrored
}

/// Whether a batch was slow.
pub fn is_slow_relay(total_ms: u128) -> (out: bool)
    ensures
        out == (total_ms >= 2_000),
{
    total_ms >= RELAY_WARN_MS
}

/// Why sending snapshots on has to stop; nothing where the broker took the message.
pub open spec fn fanout_failure(outcome: PublishOutcome) -> Option<Seq<char>> {
    match outcome {
        PublishOutcome::Ack => None,
        PublishOutcome::Nack { returned } => Some(
            "snapshot fanout broker nack returned="@ + if returned {
                "true"@
            } else {
                "false"@
            },
        ),
        PublishOutcome::NotRequested => Some("snapshot fanout publisher confirm not requested"@),
        PublishOutcome::Failed(why) => Some(why@),
    }
}

/// What to do after an attempt to send the snapshots of a minute on.
#[derive(Clone, Debug, PartialEq, Eq)]
pub enum FanoutStep {
    /// All were taken: note the minute as sent.
    Advance { sent: usize },
    /// One was not: leave the minute for the next attempt.
    Fail(String),
}

/// Why the first message from place `from` on that was not taken was not.
pub open spec fn first_failure(outcomes: Seq<PublishOutcome>, from: int) -> Option<Seq<char>>
    decreases outcomes.len() - from,
{
    if from < 0 || from >= outcomes.len() {
        None
    } else if fanout_failure(outcomes[from]) is Some {
        fanout_failure(outcomes[from])
    } else {
        first_failure(outcomes, from + 1)
    }
}

/// The reason why one message was not taken.
pub fn fanout_refusal(outcome: &PublishOutcome) -> (out: Option<String>)
    ensures
        (out is Some) == (fanout_failure(*outcome) is Some),
        out matches Some(why) ==> fanout_failure(*outcome) == Some(why@),
{
    match outcome {
        PublishOutcome::Ack => None,
        PublishOutcome::Nack { returned } => {
            let head: String = "snapshot fanout broker nack returned=".to_owned();
            Some(
                joined(
                    head,
                    if *returned {
                        "true"
                    } else {
                        "false"
                    },
                ),
            )
        },
        PublishOutcome::NotRequested => Some(
            "snapshot fanout publisher confirm not requested".to_owned(),
        ),
        PublishOutcome::Failed(why) => Some(why.clone()),
    }
}

fn joined(head: String, tail: &str) -> (out: String)
    ensures
        out@ == head@ + tail@,
{
    let mut out: String = head;
    vstd::string::StringExecFns::append(&mut out, tail);
    out
}

/// What to do after the messages of a minute were handed over one after the other: the
/// minute counts as sent only if every one was taken, and of several refusals the first
/// is the reason.
pub fn fanout_step(outcomes: &[PublishOutcome]) -> (out: FanoutStep)
    ensures
        match first_failure(outcomes@, 0) {
            None => out == (FanoutStep::Advance { sent: outcomes@.len() as usize }),
            Some(reason) => (out matches FanoutStep::Fail(why) && why@ == reason),
        },
{
    let mut i: usize = 0;
    while i < outcomes.len()
        invariant
            i <= outcomes@.len(),
            first_failure(outcomes@, 0) == first_failure(outcomes@, i as int),
        decreases outcomes@.len() - i,
    {
        if let Some(why) = fanout_refusal(&outcomes[i]) {
            return FanoutStep::Fail(why);
        }
        i += 1;
    }
    FanoutStep::Advance { sent: outcomes.len() }
}

/// The instant that sending on starts after: the last one sent, or the epoch.
pub fn fanout_start(last_published: Option<i64>) -> (out: i64)
    ensures
        out == match last_published {
            Some(ts) => ts,
            None => 0,
        },
{
    match last_published {
        Some(ts) => ts,
        None => 0,
    }
}

/// The symbol that snapshots are stored under.
pub fn symbol_upper(symbol: &str) -> (out: String)
    ensures
        out@ == text::uppercase(symbol@),
{
    to_uppercase(symbol)
}

/// A row is orphaned exactly where what it comes from is not there: its intent where it names
/// one, and else its message.
pub proof fn law_orphaned(row: SourcedRow, intents: Seq<i64>, messages: Seq<u128>)
    ensures
        row.source_intent_id matches Some(id) ==> (is_orphaned(row, intents, messages)
            <==> !intents.contains(id)),
        row.source_intent_id is None ==> (is_orphaned(row, intents, messages)
            <==> !messages.contains(row.message_id)),
{
}

/// The orphans are the identities of the orphaned rows.
pub proof fn law_orphans(
    rows: Seq<SourcedRow>,
    intents: Seq<i64>,
    messages: Seq<u128>,
    hi: int,
    id: i64,
)
    requires
        0 <= hi <= rows.len(),
    ensures
        orphans(rows, intents, messages, hi).contains(id) <==> exists|k: int|
            0 <= k < hi && (#[trigger] rows[k]).outbox_id == id && is_orphaned(
                rows[k],
                intents,
                messages,
            ),
    decreases hi,
{
    if hi > 0 {
        law_orphans(rows, intents, messages, hi - 1, id);
        let rest = orphans(rows, intents, messages, hi - 1);
        let all = orphans(rows, intents, messages, hi);
        if all.contains(id) {
            let a = choose|a: int| 0 <= a < all.len() && all[a] == id;
            if a < rest.len() {
                assert(rest[a] == id);
            } else {
                assert(rows[hi - 1].outbox_id == id);
            }
        }
        if rest.contains(id) {
            let a = choose|a: int| 0 <= a < rest.len() && rest[a] == id;
            assert(all[a] == id);
        }
        if rows[hi - 1].outbox_id == id && is_orphaned(rows[hi - 1], intents, messages) {
            assert(all[all.len() - 1] == id);
        }
    }
}

/// The intents asked for are those that rows name, and the messages asked for those of the rows
/// that name none.
pub proof fn law_what_rows_come_from(rows: Seq<SourcedRow>, hi: int, id: i64, message: u128)
    requires
        0 <= hi <= rows.len(),
    ensures
        named_intents(rows, hi).contains(id) <==> exists|k: int|
            0 <= k < hi && (#[trigger] rows[k]).source_intent_id == Some(id),
        unnamed_messages(rows, hi).contains(message) <==> exists|k: int|
            0 <= k < hi && (#[trigger] rows[k]).source_intent_id is None && rows[k].message_id
                == message,
    decreases hi,
{
    if hi > 0 {
        law_what_rows_come_from(rows, hi - 1, id, message);
        let row = rows[hi - 1];
        let a0 = named_intents(rows, hi - 1);
        let a1 = named_intents(rows, hi);
        let b0 = unnamed_messages(rows, hi - 1);
        let b1 = unnamed_messages(rows, hi);
        if a1.contains(id) {
            let a = choose|a: int| 0 <= a < a1.len() && a1[a] == id;
            if a < a0.len() {
                assert(a0[a] == id);
            }
        }
        if a0.contains(id) {
            let a = choose|a: int| 0 <= a < a0.len() && a0[a] == id;
            assert(a1[a] == id);
        }
        if row.source_intent_id == Some(id) {
            assert(a1[a1.len() - 1] == id);
        }
        if b1.contains(message) {
            let a = choose|a: int| 0 <= a < b1.len() && b1[a] == message;
            if a < b0.len() {
                assert(b0[a] == message);
            }
        }
        if b0.contains(message) {
            let a = choose|a: int| 0 <= a < b0.len() && b0[a] == message;
            assert(b1[a] == message);
        }
        if row.source_intent_id is None && row.message_id == message {
            assert(b1[b1.len() - 1] == message);
        }
    }
}

/// A fan-out fails with the first message that the broker did not take, and only where there
/// is one.
pub proof fn law_first_failure(outcomes: Seq<PublishOutcome>, from: int)
    requires
        0 <= from <= outcomes.len(),
    ensures
        first_failure(outcomes, from) is None <==> forall|i: int|
            from <= i < outcomes.len() ==> #[trigger] outcomes[i] is Ack,
        forall|i: int|
            from <= i < outcomes.len() && !(#[trigger] outcomes[i] is Ack) && (forall|j: int|
                from <= j < i ==> #[trigger] outcomes[j] is Ack) ==> first_failure(outcomes, from)
                == fanout_failure(outcomes[i]) && first_failure(outcomes, from) is Some,
    decreases outcomes.len() - from,
{
    if from < outcomes.len() {
        law_first_failure(outcomes, from + 1);
        assert(fanout_failure(outcomes[from]) is None <==> outcomes[from] is Ack);
    }
}

} // verus!
