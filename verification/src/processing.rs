//! The processing loop: fold every row of the input into the engine, and count
//! how each was handled.

use vstd::prelude::*;

use crate::engine::Engine;
use crate::engine::Outcome;
use crate::engine::State;
use crate::error::EngineError;
use crate::io::TransactionReader;
use crate::io::item_of;
use crate::laws::all_fit;
use crate::types::Event;
use crate::types::Transaction;

verus! {

/// Counts of how each input row was handled.
#[derive(Debug, PartialEq, Eq, Structural)]
pub struct Stats {
    /// Events that changed state.
    pub processed: u64,
    /// Well-formed events the rules declined (no-ops).
    pub ignored: u64,
    /// Malformed rows skipped at the parse boundary.
    pub skipped: u64,
}

impl Stats {
    /// Whether there is room to count one more row, however it is handled.
    pub open spec fn can_count(self) -> bool {
        self.processed < u64::MAX && self.ignored < u64::MAX && self.skipped < u64::MAX
    }

    /// The counts after one more event with this outcome.
    pub open spec fn with_outcome(self, outcome: Outcome) -> Stats {
        match outcome {
            Outcome::Applied => Stats { processed: (self.processed + 1) as u64, ..self },
            Outcome::Rejected(_) => Stats { ignored: (self.ignored + 1) as u64, ..self },
        }
    }

    /// The counts after one more row that was skipped.
    pub open spec fn with_skip(self) -> Stats {
        Stats { skipped: (self.skipped + 1) as u64, ..self }
    }
}

impl Default for Stats {
    /// Nothing counted yet.
    fn default() -> (r: Stats)
        ensures
            r == (Stats { processed: 0, ignored: 0, skipped: 0 }),
    {
        Stats { processed: 0, ignored: 0, skipped: 0 }
    }
}

/// The events that rows state, in order. Rows that are malformed or could not be
/// read state none.
pub open spec fn events_of(rows: Seq<Option<Seq<Seq<u8>>>>) -> Seq<Event>
    decreases rows.len(),
{
    if rows.len() == 0 {
        seq![]
    } else {
        match item_of(rows.last()) {
            Some(event) => events_of(rows.drop_last()).push(event),
            None => events_of(rows.drop_last()),
        }
    }
}

impl State {
    /// The state after a sequence of events.
    pub open spec fn replay(self, events: Seq<Event>) -> State
        decreases events.len(),
    {
        if events.len() == 0 {
            self
        } else {
            self.replay(events.drop_last()).step(events.last()).0
        }
    }

    /// How many of a sequence of events are applied.
    pub open spec fn applied(self, events: Seq<Event>) -> nat
        decreases events.len(),
    {
        if events.len() == 0 {
            0
        } else {
            let before = self.applied(events.drop_last());
            if self.replay(events.drop_last()).step(events.last()).1 is Applied {
                before + 1
            } else {
                before
            }
        }
    }
}

/// Settle one row: apply its event and count the outcome, or count the row as
/// skipped and hand its error back for the caller to report.
pub fn settle(
    item: Result<Transaction, EngineError>,
    engine: &mut Engine,
    stats: &mut Stats,
) -> (r: Option<EngineError>)
    requires
        old(stats).can_count(),
    ensures
        match item {
            Ok(transaction) => {
                let (state, outcome) = old(engine)@.step(transaction@);
                &&& r is None
                &&& final(engine)@ == state
                &&& *final(stats) == old(stats).with_outcome(outcome)
                &&& final(stats).processed == old(stats).processed + if outcome is Applied {
                    1int
                } else {
                    0
                }
                &&& final(stats).ignored == old(stats).ignored + if outcome is Rejected {
                    1int
                } else {
                    0
                }
                &&& final(stats).skipped == old(stats).skipped
            },
            Err(error) => {
                &&& r == Some(error)
                &&& final(engine)@ == old(engine)@
                &&& *final(stats) == old(stats).with_skip()
                &&& final(stats).processed == old(stats).processed
                &&& final(stats).ignored == old(stats).ignored
                &&& final(stats).skipped == old(stats).skipped + 1
            },
        },
{
    match item {
        Ok(transaction) => {
            match engine.apply(transaction) {
                Outcome::Applied => {
                    stats.processed = stats.processed + 1;
                },
                Outcome::Rejected(_) => {
                    stats.ignored = stats.ignored + 1;
                },
            }
            None
        },
        Err(error) => {
            stats.skipped = stats.skipped + 1;
            Some(error)
        },
    }
}

/// Fold every event from `reader` into `engine`, returning per-row counts.
/// Malformed rows are skipped, so the stream never stops; events that the rules
/// decline are counted.
pub fn run(reader: TransactionReader, engine: &mut Engine) -> (r: Stats)
    ensures
        final(engine)@ == old(engine)@.replay(events_of(reader@)),
        all_fit(events_of(reader@)),
        r.processed == old(engine)@.applied(events_of(reader@)),
        r.processed + r.ignored == events_of(reader@).len(),
        r.processed + r.ignored + r.skipped == reader@.len(),
{
    let ghost rows = reader@;
    let mut reader = reader;
    let count: usize = reader.remaining();
    let mut stats = Stats::default();
    let ghost mut k: int = 0;
    assert(rows.skip(0) == rows);
    loop
        invariant_except_break
            0 <= k <= rows.len() == count,
            reader@ == rows.skip(k),
            engine@ == old(engine)@.replay(events_of(rows.take(k))),
            all_fit(events_of(rows.take(k))),
            stats.processed == old(engine)@.applied(events_of(rows.take(k))),
            stats.processed + stats.ignored == events_of(rows.take(k)).len(),
            stats.processed + stats.ignored + stats.skipped == k,
        ensures
            engine@ == old(engine)@.replay(events_of(rows)),
            all_fit(events_of(rows)),
            stats.processed == old(engine)@.applied(events_of(rows)),
            stats.processed + stats.ignored == events_of(rows).len(),
            stats.processed + stats.ignored + stats.skipped == rows.len(),
        decreases rows.len() - k,
    {
        match reader.next() {
            None => {
                assert(rows.take(k) == rows);
                break;
            },
            Some(item) => {
                proof {
                    assert(rows.take(k + 1).drop_last() == rows.take(k));
                    assert(rows.take(k + 1).last() == rows[k]);
                    let events = events_of(rows.take(k));
                    if let Some(event) = item_of(rows[k]) {
                        assert(events.push(event).drop_last() == events);
                    }
                    assert(rows.skip(k).skip(1) == rows.skip(k + 1));
                    k = k + 1;
                }
                settle(item, engine, &mut stats);
            },
        }
    }
    stats
}

} // verus!
