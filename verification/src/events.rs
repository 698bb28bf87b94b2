//! A log that accepts market events in causal order only.

use crate::market::PriceTicks;
use vstd::prelude::*;

verus! {

#[derive(Clone, Copy, Debug, PartialEq, Eq, Structural)]
pub enum EventKind {
    BarOpen { price: PriceTicks },
}

#[derive(Debug, PartialEq, Eq)]
pub struct MarketEvent {
    pub sequence: u64,
    pub timestamp_ns: i128,
    pub instrument: String,
    pub kind: EventKind,
}

#[allow(inconsistent_fields)]
#[derive(Clone, Copy, Debug, PartialEq, Eq, Structural)]
pub enum EventLogError {
    Sequence { expected: u64, actual: u64 },
    Timestamp { previous: i128, actual: i128 },
}

#[derive(Debug)]
pub struct CausalEventLog {
    events: Vec<MarketEvent>,
}

impl Default for CausalEventLog {
    fn default() -> (r: Self)
        ensures
            r@ == Seq::<MarketEvent>::empty(),
            r.well_formed(),
    {
        CausalEventLog { events: Vec::new() }
    }
}

impl View for CausalEventLog {
    type V = Seq<MarketEvent>;

    closed spec fn view(&self) -> Seq<MarketEvent> {
        self.events@
    }
}

/// Events that count up from zero and never step back in time.
pub open spec fn causal(events: Seq<MarketEvent>) -> bool {
    &&& forall|i: int| 0 <= i < events.len() ==> (#[trigger] events[i]).sequence == i
    &&& forall|i: int, j: int|
        0 <= i <= j < events.len() ==> (#[trigger] events[i]).timestamp_ns
            <= (#[trigger] events[j]).timestamp_ns
}

/// Why an event cannot come next, if it cannot.
pub open spec fn refusal(events: Seq<MarketEvent>, event: MarketEvent) -> Option<EventLogError> {
    if event.sequence != events.len() {
        Some(
            EventLogError::Sequence { expected: events.len() as u64, actual: event.sequence },
        )
    } else if events.len() > 0 && event.timestamp_ns < events.last().timestamp_ns {
        Some(
            EventLogError::Timestamp {
                previous: events.last().timestamp_ns,
                actual: event.timestamp_ns,
            },
        )
    } else {
        None
    }
}

/// An event is taken exactly where the log stays causal with it, and only events that
/// step back in time or out of the count are refused.
pub proof fn law_causal_events_are_taken(events: Seq<MarketEvent>, event: MarketEvent)
    requires
        causal(events),
    ensures
        refusal(events, event) is None <==> causal(events.push(event)),
        refusal(events, event) matches Some(EventLogError::Timestamp { previous, actual })
            ==> actual < previous && actual == event.timestamp_ns && event.sequence
            == events.len(),
        refusal(events, event) matches Some(EventLogError::Sequence { expected, actual })
            ==> actual == event.sequence && actual != events.len() && expected
            == events.len() as u64,
{
    let more = events.push(event);
    if causal(more) {
        assert(more[events.len() as int].sequence == events.len());
        if events.len() > 0 {
            assert(more[events.len() - 1].timestamp_ns <= more[events.len() as int].timestamp_ns);
        }
    }
}

impl CausalEventLog {
    pub open spec fn well_formed(self) -> bool {
        causal(self@)
    }

    /// Appends the next event; one out of sequence or earlier than its
    /// predecessor is refused and leaves the log as it was.
    pub fn append(&mut self, event: MarketEvent) -> (r: Result<(), EventLogError>)
        requires
            old(self).well_formed(),
        ensures
            final(self).well_formed(),
            match r {
                Ok(()) => {
                    &&& event.sequence == old(self)@.len()
                    &&& old(self)@.len() > 0 ==> event.timestamp_ns
                        >= old(self)@.last().timestamp_ns
                    &&& final(self)@ == old(self)@.push(event)
                },
                Err(EventLogError::Sequence { expected, actual }) => {
                    &&& event.sequence != old(self)@.len()
                    &&& expected == old(self)@.len()
                    &&& actual == event.sequence
                    &&& final(self)@ == old(self)@
                },
                Err(EventLogError::Timestamp { previous, actual }) => {
                    &&& event.sequence == old(self)@.len()
                    &&& old(self)@.len() > 0
                    &&& event.timestamp_ns < old(self)@.last().timestamp_ns
                    &&& previous == old(self)@.last().timestamp_ns
                    &&& actual == event.timestamp_ns
                    &&& final(self)@ == old(self)@
                },
            },
            match refusal(old(self)@, event) {
                None => r == Ok::<(), EventLogError>(()) && final(self)@ == old(self)@.push(event),
                Some(error) => r == Err::<(), EventLogError>(error) && final(self)@ == old(self)@,
            },
    {
        let expected: u64 = self.events.len() as u64;
        if event.sequence != expected {
            return Err(EventLogError::Sequence { expected, actual: event.sequence });
        }
        if self.events.len() > 0 {
            let previous: i128 = self.events[self.events.len() - 1].timestamp_ns;
            if event.timestamp_ns < previous {
                return Err(EventLogError::Timestamp { previous, actual: event.timestamp_ns });
            }
        }
        self.events.push(event);
        Ok(())
    }

    pub fn events(&self) -> (r: &[MarketEvent])
        ensures
            r@ == self@,
    {
        self.events.as_slice()
    }
}

} // verus!
