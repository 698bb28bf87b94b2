use bullet::events::{CausalEventLog, EventKind, EventLogError, MarketEvent};

fn event(sequence: u64, timestamp_ns: i128) -> MarketEvent {
    MarketEvent {
        sequence,
        timestamp_ns,
        instrument: "ES".to_owned(),
        kind: EventKind::BarOpen { price: 5_000 },
    }
}

#[test]
fn accepts_one_causal_sequence() {
    let mut log = CausalEventLog::default();
    assert_eq!(log.append(event(0, 10)), Ok(()));
    assert_eq!(log.append(event(1, 11)), Ok(()));
    assert_eq!(log.events().len(), 2);
}

#[test]
fn rejects_non_causal_sequence() {
    let mut log = CausalEventLog::default();
    assert_eq!(log.append(event(0, 10)), Ok(()));
    assert_eq!(
        log.append(event(2, 11)),
        Err(EventLogError::Sequence {
            expected: 1,
            actual: 2,
        })
    );
}

#[test]
fn time_may_stand_still_and_not_run_back() {
    let mut log = CausalEventLog::default();
    assert_eq!(log.append(event(0, 10)), Ok(()));
    assert_eq!(log.append(event(1, 10)), Ok(()));
    assert_eq!(
        log.append(event(2, 9)),
        Err(EventLogError::Timestamp {
            previous: 10,
            actual: 9,
        })
    );
    assert_eq!(log.events().len(), 2);
}
