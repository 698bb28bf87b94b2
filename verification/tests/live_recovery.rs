use bullet::binary64::Binary64;
use bullet::data::HistoryBar;
use bullet::live::ctpd::CtpdKline;
use bullet::live::model::{InstrumentConfig, Lab0344Model, Portfolio};
use bullet::live::publication::Publication;
use bullet::live::recovery::recover_all;
use bullet::ordered::TextMap;

fn of(value: f64) -> Binary64 {
    Binary64::from_bits(value.to_bits())
}

const HOURS: u64 = 8 * 3_600_000_000_000;
const MINUTE: u64 = 60_000_000_000;

fn kline(minute: i64) -> CtpdKline {
    CtpdKline {
        start_ms: minute * 60_000,
        open: of(4_000.0),
        high: of(4_010.0),
        low: of(3_990.0),
        close: of(4_005.0),
        volume: 1,
        money: of(4_005.0),
        open_interest: of(1.0),
        closed: true,
    }
}

fn seed(minute: u64) -> HistoryBar {
    HistoryBar {
        timestamp_ns: HOURS + minute * MINUTE,
        open: of(1.0),
        close: of(1.0),
        open_interest: of(1.0),
    }
}

fn publication() -> Publication {
    let mut portfolio = Portfolio::default();
    for id in ["IF", "IC"] {
        portfolio.insert(
            id.into(),
            Lab0344Model::new(&InstrumentConfig {
                symbol: id.into(),
                ctpd_instrument_id: id.into(),
                parquet: "/unused".into(),
                target_contracts: 1,
                contract_multiplier: of(300.0),
                session_bar_count: 3,
                last_executable_signal_time: "14:40:00".into(),
            }),
        );
    }
    Publication::new(portfolio)
}

fn histories() -> TextMap<Vec<HistoryBar>> {
    let mut histories = TextMap::new();
    histories.set("IF".into(), vec![seed(1)]);
    histories.set("IC".into(), vec![seed(1)]);
    histories
}

fn lengths(histories: &TextMap<Vec<HistoryBar>>) -> Vec<usize> {
    (0..histories.len()).map(|at| histories.value(at).len()).collect()
}

#[test]
fn all_legs_are_recovered_from_closed_bars() {
    let (mut published, mut kept) = (publication(), histories());
    let mut open = kline(2);
    open.closed = false;
    // The bar that starts in minute zero ends in minute one, which is known.
    let read = vec![
        ("IF".to_owned(), Ok(vec![kline(1), open, kline(0)])),
        ("IC".to_owned(), Ok(vec![])),
    ];
    assert_eq!(recover_all(&mut published, &mut kept, read), Ok(1));
    assert!(published.is_synchronized());
    assert_eq!(lengths(&kept), [1, 2]);
    let bars = kept.get("IF").unwrap();
    assert_eq!(bars[1].timestamp_ns, HOURS + 2 * MINUTE);
    assert_eq!(bars[1].close, of(4_005.0));
    assert_eq!(published.leg_ids(), ["IC", "IF"]);
}

#[test]
fn a_failed_reading_applies_nothing() {
    let (mut published, mut kept) = (publication(), histories());
    let read = vec![
        ("IF".to_owned(), Ok(vec![kline(1)])),
        ("IC".to_owned(), Err("CTPD rejected".to_owned())),
    ];
    assert_eq!(
        recover_all(&mut published, &mut kept, read),
        Err("CTPD rejected".to_owned())
    );
    assert!(!published.is_synchronized());
    assert_eq!(lengths(&kept), [1, 1]);
    let mut absurd = kline(1);
    absurd.volume = -1;
    let read = vec![
        ("IF".to_owned(), Ok(vec![absurd])),
        ("IC".to_owned(), Err("CTPD rejected".to_owned())),
    ];
    assert_eq!(
        recover_all(&mut published, &mut kept, read),
        Err("CTPD Kline has invalid market values".to_owned())
    );
    let read = vec![("IH".to_owned(), Ok(vec![kline(1)]))];
    assert_eq!(
        recover_all(&mut published, &mut kept, read),
        Err("cannot recover CTPD Klines before Parquet history is seeded".to_owned())
    );
    assert_eq!(lengths(&kept), [1, 1]);
}

#[test]
fn a_leg_that_cannot_be_recovered_withholds_all() {
    let (mut published, mut kept) = (publication(), histories());
    assert_eq!(recover_all(&mut published, &mut kept, vec![]), Ok(0));
    assert!(published.is_synchronized());
    let read = vec![("IF".to_owned(), Ok(vec![kline(1), kline(2), kline(3)]))];
    assert_eq!(
        recover_all(&mut published, &mut kept, read),
        Err("Parquet session has 4 bars, above configured session_bar_count 3".to_owned())
    );
    assert!(!published.is_synchronized());
    assert!(published.targets().is_empty());
}

#[test]
fn a_leg_without_history_is_refused() {
    let mut published = publication();
    let mut kept = TextMap::new();
    kept.set("IF".to_owned(), vec![seed(1)]);
    assert_eq!(
        recover_all(&mut published, &mut kept, vec![]),
        Err("cannot recover CTPD Klines before Parquet history is seeded".to_owned())
    );
    assert!(!published.is_synchronized());
}
