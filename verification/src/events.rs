//! What an event indicator reports of a minute: the events it lists, those that
//! become rows, and how many minutes of history stand behind them.

#[allow(unused_imports)]
use crate::clock;
use crate::clock::MINUTE_US;
use crate::history::copied;
use vstd::prelude::*;

verus! {

/// An event that becomes known at some instant.
pub trait Confirmed: Sized + Copy {
    /// When the event becomes known.
    spec fn known_at(&self) -> i64;

    /// When the event becomes known.
    fn known_ts(&self) -> (out: i64)
        ensures
            out == self.known_at(),
    ;
}

/// What an event indicator reports of a minute.
pub struct EventReport<T> {
    /// The events that the snapshot lists.
    pub listed: Vec<T>,
    /// The events that become rows.
    pub rows: Vec<T>,
    /// Minutes of history that both markets have.
    pub covered_minutes: usize,
}

/// The events that become known at the end of the minute that starts at `ts_bucket`.
pub open spec fn known_with<T: Confirmed>(events: Seq<T>, ts_bucket: i64) -> Seq<T> {
    events.filter(|event: T| event.known_at() == ts_bucket + MINUTE_US)
}

/// The events that become known at the end of the minute that starts at `ts_bucket`.
pub fn current_events<T: Confirmed>(events: &[T], ts_bucket: i64) -> (out: Vec<T>)
    requires
        clock::is_instant(ts_bucket),
    ensures
        out@ == known_with(events@, ts_bucket),
{
    let known: i64 = ts_bucket + MINUTE_US;
    let mut out: Vec<T> = Vec::new();
    let mut i: usize = 0;
    proof {
        reveal(Seq::filter);
    }
    while i < events.len()
        invariant
            i <= events@.len(),
            known == ts_bucket + MINUTE_US,
            out@ == known_with(events@.take(i as int), ts_bucket),
        decreases events@.len() - i,
    {
        proof {
            reveal(Seq::filter);
            assert(events@.take(i + 1).drop_last() =~= events@.take(i as int));
            assert(events@.take(i + 1).last() == events@[i as int]);
        }
        let event: T = events[i];
        if event.known_ts() == known {
            out.push(event);
        }
        i += 1;
    }
    proof {
        assert(events@.take(i as int) =~= events@);
    }
    out
}

/// The minutes that two histories have in common.
pub open spec fn covered(futures_minutes: usize, spot_minutes: usize) -> usize {
    if futures_minutes <= spot_minutes {
        futures_minutes
    } else {
        spot_minutes
    }
}

/// The minutes that two histories have in common.
pub fn covered_minutes(futures_minutes: usize, spot_minutes: usize) -> (out: usize)
    ensures
        out == covered(futures_minutes, spot_minutes),
{
    if futures_minutes <= spot_minutes {
        futures_minutes
    } else {
        spot_minutes
    }
}

/// A report that lists all given events and turns into rows those that become known
/// with the minute.
pub fn report_current<T: Confirmed>(
    all_events: &[T],
    ts_bucket: i64,
    futures_minutes: usize,
    spot_minutes: usize,
) -> (out: EventReport<T>)
    requires
        clock::is_instant(ts_bucket),
    ensures
        out.listed@ == all_events@,
        out.rows@ == known_with(all_events@, ts_bucket),
        out.covered_minutes == covered(futures_minutes, spot_minutes),
{
    EventReport {
        listed: copied(all_events),
        rows: current_events(all_events, ts_bucket),
        covered_minutes: covered_minutes(futures_minutes, spot_minutes),
    }
}

/// Every row of a minute's report is one of the listed events and becomes known at
/// the end of that minute, and every listed event of that kind is a row.
pub proof fn law_rows_are_the_new_events<T: Confirmed>(events: Seq<T>, ts_bucket: i64)
    ensures
        forall|event: T|
            #[trigger] known_with(events, ts_bucket).contains(event) <==> events.contains(event)
                && event.known_at() == ts_bucket + MINUTE_US,
    decreases events.len(),
{
    reveal(Seq::filter);
    let rows = known_with(events, ts_bucket);
    if events.len() > 0 {
        let first = events.drop_last();
        let before = known_with(first, ts_bucket);
        law_rows_are_the_new_events(first, ts_bucket);
        assert(events =~= first.push(events.last()));
        assert forall|event: T|
            #[trigger] rows.contains(event) <==> events.contains(event) && event.known_at()
                == ts_bucket + MINUTE_US by {
            assert(events.contains(event) <==> first.contains(event) || event == events.last()) by {
                assert(events[events.len() - 1] == events.last());
                if first.contains(event) {
                    let i = choose|i: int| 0 <= i < first.len() && first[i] == event;
                    assert(events[i] == event);
                }
                if events.contains(event) && event != events.last() {
                    let i = choose|i: int| 0 <= i < events.len() && events[i] == event;
                    assert(first[i] == event);
                }
            }
            if rows != before {
                assert(rows =~= before.push(events.last()));
                assert(rows[rows.len() - 1] == events.last());
                if before.contains(event) {
                    let i = choose|i: int| 0 <= i < before.len() && before[i] == event;
                    assert(rows[i] == event);
                }
                if rows.contains(event) && event != events.last() {
                    let i = choose|i: int| 0 <= i < rows.len() && rows[i] == event;
                    assert(before[i] == event);
                }
            }
            assert(before.contains(event) <==> first.contains(event) && event.known_at()
                == ts_bucket + MINUTE_US);
        }
    }
}

/// Both markets cover no more minutes together than either does, and as many as one of them.
pub proof fn law_covered(futures_minutes: usize, spot_minutes: usize)
    ensures
        covered(futures_minutes, spot_minutes) <= futures_minutes,
        covered(futures_minutes, spot_minutes) <= spot_minutes,
        covered(futures_minutes, spot_minutes) == futures_minutes || covered(
            futures_minutes,
            spot_minutes,
        ) == spot_minutes,
{
}

} // verus!
