use std::time::Instant;

use bullet::binary64::Binary64;
use bullet::calendar::TimeOfDay;
use bullet::data::HistoryBar;
use bullet::live::model::{
    check_tick, clock_timestamp_ns, history_day, CompletedBar, CtpdTick, InstrumentConfig, Lab0344Model, OpenPosition, Portfolio,
    Side, NANOSECONDS_PER_MINUTE,
};
use bullet::live::publication::Publication;
use chrono::{Duration, NaiveDateTime};

fn of(value: f64) -> Binary64 {
    Binary64::from_bits(value.to_bits())
}

fn back(value: Binary64) -> f64 {
    f64::from_bits(value.to_bits())
}

fn config() -> InstrumentConfig {
    InstrumentConfig {
        symbol: "IF".into(),
        ctpd_instrument_id: "IF2609".into(),
        parquet: "/unused".into(),
        target_contracts: 2,
        contract_multiplier: of(300.0),
        session_bar_count: 240,
        last_executable_signal_time: "14:40:00".into(),
    }
}

fn datetime(text: &str) -> NaiveDateTime {
    NaiveDateTime::parse_from_str(text, "%Y%m%d %H:%M:%S").unwrap()
}

fn tick_at(at: NaiveDateTime, price: f64, oi: f64) -> CtpdTick {
    CtpdTick {
        instrument_id: "IF2609".into(),
        exchange_id: "CFFEX".into(),
        trading_day: "20260810".into(),
        action_day: at.format("%Y%m%d").to_string(),
        update_time: at.format("%H:%M:%S").to_string(),
        update_millisec: 0,
        last_price: of(price),
        open_interest: of(oi),
    }
}

fn session_tick(row: usize, price: f64, oi: f64) -> CtpdTick {
    tick_at(
        datetime("20260810 09:30:00") + Duration::minutes(row as i64),
        price,
        oi,
    )
}

#[test]
fn signal_enters_next_bar_and_exits_at_lab0344_offset() {
    let mut model = Lab0344Model::new(&config());
    for row in 0..=60 {
        let oi = if row == 59 { 100.0 } else { 99.0 };
        let target = model
            .ingest(session_tick(row, 4_000.0 + row as f64, oi))
            .unwrap();
        if row < 60 {
            assert!(target.is_none());
        } else {
            assert_eq!(target.unwrap().contracts, 2);
        }
    }
    for row in 61..79 {
        assert!(
            model
                .ingest(session_tick(row, 4_100.0, 101.0))
                .unwrap()
                .is_some()
        );
    }
    // Signal row 60 exits on the opening tick of row 80. No future close
    // is read to perform that exit.
    assert!(
        model
            .ingest(session_tick(79, 4_100.0, 101.0))
            .unwrap()
            .is_none()
    );
}

#[test]
fn parquet_session_replay_restores_first_signal_and_open_position() {
    let mut model = Lab0344Model::new(&config());
    let first_endpoint = datetime("20260810 09:31:00")
        .and_utc()
        .timestamp_nanos_opt()
        .unwrap() as u64;
    let history = (0..70)
        .map(|row| HistoryBar {
            timestamp_ns: first_endpoint + row * NANOSECONDS_PER_MINUTE,
            open: of(4_000.0 + row as f64),
            close: of(4_000.0 + row as f64),
            open_interest: of(if row == 59 { 100.0 } else { 99.0 }),
        })
        .collect::<Vec<_>>();
    model.seed_history(&history).unwrap();
    assert!(model.signal_seen);
    assert_eq!(back(model.position.as_ref().unwrap().entry_price), 4_060.0);

    // History ends at 10:40. The live tick at 10:40 begins a 10:41-end
    // bar, advances the historical state, and publishes the carried target.
    let target = model
        .ingest(tick_at(datetime("20260810 10:40:00"), 4_080.0, 101.0))
        .unwrap()
        .unwrap();
    assert_eq!(target.contracts, 2);
    assert_eq!(back(target.entry_price), 4_060.0);
}

#[test]
fn session_boundary_prevents_a_nonexistent_tail_candidate() {
    let mut model = Lab0344Model::new(&config());
    model.action_day = Some("20260810".into());
    model.completed_rows = 219;
    model.previous = Some(CompletedBar {
        timestamp_ns: datetime("20260810 14:39:00")
            .and_utc()
            .timestamp_nanos_opt()
            .unwrap() as u64,
        close: of(4_000.0),
        open_interest: of(100.0),
    });
    model
        .complete_bar(CompletedBar {
            timestamp_ns: datetime("20260810 14:40:00")
                .and_utc()
                .timestamp_nanos_opt()
                .unwrap() as u64,
            close: of(4_001.0),
            open_interest: of(101.0),
        })
        .unwrap();
    assert_eq!(model.pending_entry.as_ref().unwrap().entry_row, 221);
    assert_eq!(model.pending_entry.as_ref().unwrap().exit_row, 240);

    let mut tail = Lab0344Model::new(&config());
    tail.action_day = Some("20260810".into());
    tail.completed_rows = 220;
    tail.previous = Some(CompletedBar {
        timestamp_ns: datetime("20260810 14:40:00")
            .and_utc()
            .timestamp_nanos_opt()
            .unwrap() as u64,
        close: of(4_000.0),
        open_interest: of(100.0),
    });
    tail.complete_bar(CompletedBar {
        timestamp_ns: datetime("20260810 14:41:00")
            .and_utc()
            .timestamp_nanos_opt()
            .unwrap() as u64,
        close: of(4_001.0),
        open_interest: of(101.0),
    })
    .unwrap();
    assert!(tail.pending_entry.is_none());
    assert!(!tail.signal_seen);
}

#[test]
fn action_day_is_the_natural_day_boundary_not_ctp_trading_day() {
    let mut model = Lab0344Model::new(&config());
    let mut night = tick_at(datetime("20260809 21:00:00"), 4_000.0, 100.0);
    night.trading_day = "20260810".into();
    model.ingest(night).unwrap();
    assert_eq!(model.action_day.as_deref(), Some("20260809"));

    let mut morning = tick_at(datetime("20260810 09:30:00"), 4_001.0, 101.0);
    morning.trading_day = "20260810".into();
    model.ingest(morning).unwrap();
    assert_eq!(model.action_day.as_deref(), Some("20260810"));
    assert_eq!(model.completed_rows, 0);
}

#[test]
fn rejects_out_of_order_ticks_and_clears_every_state_after_a_gap() {
    let mut portfolio = Portfolio::default();
    portfolio.insert("IF2609".into(), Lab0344Model::new(&config()));
    portfolio.ingest(session_tick(1, 4_001.0, 100.0)).unwrap();
    assert!(portfolio.ingest(session_tick(0, 4_000.0, 100.0)).is_err());
    portfolio.clear("IF2609");
    let model = portfolio.models.get("IF2609").unwrap();
    assert!(model.current.is_none());
    assert!(model.previous.is_none());
    assert!(model.position.is_none());
    assert!(model.pending_entry.is_none());
    assert_eq!(model.completed_rows, 0);
    assert!(!model.signal_seen);
}

#[test]
fn malformed_market_values_are_rejected_before_inference() {
    let mut model = Lab0344Model::new(&config());
    let mut invalid = session_tick(0, 4_000.0, 1.0);
    invalid.open_interest = of(f64::NAN);
    assert!(model.ingest(invalid).is_err());
}

#[test]
fn hot_path_p99_is_below_one_hundred_milliseconds() {
    let mut performance_config = config();
    performance_config.session_bar_count = 3_000;
    let mut model = Lab0344Model::new(&performance_config);
    let mut samples = Vec::new();
    let start = datetime("20260810 09:30:00");
    for row in 0..2_000 {
        let started = Instant::now();
        model
            .ingest(tick_at(
                start + Duration::minutes(row as i64),
                4_000.0 + (row % 3) as f64,
                row as f64 + 1.0,
            ))
            .unwrap();
        samples.push(started.elapsed());
    }
    samples.sort_unstable();
    let p99 = samples[samples.len() * 99 / 100];
    assert!(p99.as_millis() < 100, "p99={p99:?}");
}

#[test]
fn historical_datetime_keeps_the_parquet_natural_date() {
    let timestamp_ns = datetime("20260810 20:30:00")
        .and_utc()
        .timestamp_nanos_opt()
        .unwrap() as u64;
    assert_eq!(history_day(timestamp_ns).unwrap(), "20260810");
}

#[test]
fn short_target_keeps_its_signed_contract_count() {
    let mut model = Lab0344Model::new(&config());
    model.position = Some(OpenPosition {
        side: Side::Short,
        entry_price: of(4_000.0),
        exit_row: 80,
    });
    model.latest_price = Some(of(3_990.0));
    model.exchange_id = "CFFEX".into();
    assert_eq!(model.target().unwrap().unwrap().contracts, -2);
}

#[test]
fn a_cutoff_that_is_no_time_configures_nothing() {
    let mut late = config();
    late.last_executable_signal_time = "25:00:00".into();
    assert!(Lab0344Model::configured(&late).is_none());
    assert!(Lab0344Model::configured(&config()).is_some());
}

#[test]
fn refused_ticks_say_why() {
    let mut model = Lab0344Model::new(&config());
    let refused = |model: &mut Lab0344Model, change: &dyn Fn(&mut CtpdTick)| {
        let mut tick = session_tick(0, 4_000.0, 1.0);
        change(&mut tick);
        model.ingest_at(tick, 1).unwrap_err()
    };
    assert_eq!(
        refused(&mut model, &|tick| tick.instrument_id = "IC2609".into()),
        "CTPD tick instrument IC2609 does not match IF2609"
    );
    assert_eq!(
        refused(&mut model, &|tick| tick.trading_day = "2026-08-10".into()),
        "CTPD tick has invalid market fields"
    );
    assert_eq!(
        refused(&mut model, &|tick| tick.update_millisec = 1_000),
        "CTPD tick has invalid market fields"
    );
    assert_eq!(
        refused(&mut model, &|tick| tick.update_time = "9:61".into()),
        "CTPD tick has invalid action_day/update_time"
    );
    assert_eq!(
        refused(&mut model, &|tick| tick.action_day = "19691231".into()),
        "CTPD tick timestamp precedes Unix epoch"
    );
    assert_eq!(
        refused(&mut model, &|tick| tick.action_day = "24000101".into()),
        "CTPD tick timestamp overflow"
    );
    model.ingest_at(session_tick(1, 4_000.0, 1.0), 1).unwrap();
    assert_eq!(
        refused(&mut model, &|_| {}),
        "CTPD tick is out of order"
    );
}

#[test]
fn history_restores_what_live_ticks_had_made() {
    for ended in [60, 61, 70, 79, 80] {
        let mut live = Lab0344Model::new(&config());
        let mut history = Vec::new();
        let first_endpoint = datetime("20260810 09:31:00")
            .and_utc()
            .timestamp_nanos_opt()
            .unwrap() as u64;
        for row in 0..ended {
            let oi = if row == 59 { 100.0 } else { 99.0 };
            let (open, close) = (4_000.0 + row as f64, 4_000.5 + row as f64);
            live.ingest_at(session_tick(row, open, 1.0), 1).unwrap();
            live.ingest_at(session_tick(row, close, oi), 1).unwrap();
            history.push(HistoryBar {
                timestamp_ns: first_endpoint + row as u64 * NANOSECONDS_PER_MINUTE,
                open: of(open),
                close: of(close),
                open_interest: of(oi),
            });
        }
        let mut restored = Lab0344Model::new(&config());
        restored.seed_history(&history).unwrap();
        assert!(restored.target_at(1).unwrap().is_none());
        let next = session_tick(ended, 4_200.0, 50.0);
        let shown = live.ingest_at(next.clone(), 2).unwrap();
        assert_eq!(restored.ingest_at(next, 2).unwrap(), shown);
        assert_eq!(restored.completed_rows, live.completed_rows);
        assert_eq!(restored.signal_seen, live.signal_seen);
        assert_eq!(restored.position, live.position);
        assert_eq!(restored.pending_entry, live.pending_entry);
        assert_eq!(restored.current, live.current);
        assert_eq!(shown.is_some(), (60..79).contains(&ended));
    }
}

#[test]
fn a_session_holds_no_more_bars_than_configured() {
    let mut short = config();
    short.session_bar_count = 2;
    let mut model = Lab0344Model::new(&short);
    let bar = |row: u64| HistoryBar {
        timestamp_ns: (row + 1) * NANOSECONDS_PER_MINUTE,
        open: of(1.0),
        close: of(1.0),
        open_interest: of(1.0),
    };
    assert_eq!(
        model.seed_history(&[bar(0), bar(1), bar(2)]),
        Err("Parquet session has 3 bars, above configured session_bar_count 2".to_owned())
    );
    model.seed_history(&[bar(0), bar(1)]).unwrap();
    assert_eq!(
        model.complete_bar(CompletedBar {
            timestamp_ns: 3 * NANOSECONDS_PER_MINUTE,
            close: of(1.0),
            open_interest: of(1.0),
        }),
        Err("received more than configured session_bar_count 2".to_owned())
    );
}

#[test]
fn a_tick_of_a_known_bar_changes_nothing() {
    let mut model = Lab0344Model::new(&config());
    let endpoint = datetime("20260810 09:31:00")
        .and_utc()
        .timestamp_nanos_opt()
        .unwrap() as u64;
    model
        .seed_history(&[HistoryBar {
            timestamp_ns: endpoint,
            open: of(1.0),
            close: of(1.0),
            open_interest: of(1.0),
        }])
        .unwrap();
    assert_eq!(model.ingest_at(session_tick(0, 2.0, 2.0), 1), Ok(None));
    assert!(model.current.is_none());
    assert!(model.latest_price.is_none());
}

#[test]
fn a_lost_feed_withdraws_every_target() {
    let mut portfolio = Portfolio::default();
    for id in ["IF2609", "IC2609"] {
        let mut leg = config();
        leg.ctpd_instrument_id = id.into();
        let mut model = Lab0344Model::new(&leg);
        model.action_day = Some("20260810".into());
        model.position = Some(OpenPosition {
            side: Side::Long,
            entry_price: of(4_000.0),
            exit_row: 80,
        });
        portfolio.insert(id.into(), model);
        let mut tick = session_tick(0, 4_000.0, 1.0);
        tick.instrument_id = id.into();
        portfolio.ingest_at(tick, 7).unwrap();
    }
    let shown = portfolio.targets();
    assert_eq!(
        shown
            .iter()
            .map(|target| target.ctpd_instrument_id.as_str())
            .collect::<Vec<_>>(),
        ["IC2609", "IF2609"]
    );
    assert_eq!(shown[0].contracts, 2);
    assert_eq!(shown[0].updated_at_ms, 7);
    portfolio.clear_all();
    assert!(portfolio.targets().is_empty());
    assert_eq!(portfolio.models.len(), 2);
    assert!(portfolio.models.get("IF2609").unwrap().position.is_none());
    let mut stranger = session_tick(0, 4_000.0, 1.0);
    stranger.instrument_id = "IH2609".into();
    assert_eq!(
        portfolio.ingest_at(stranger, 8),
        Err("no configured model for CTPD instrument IH2609".to_owned())
    );
}

#[test]
fn a_target_that_cannot_be_counted_is_refused() {
    let mut model = Lab0344Model::new(&config());
    model.position = Some(OpenPosition {
        side: Side::Long,
        entry_price: of(1.0),
        exit_row: 80,
    });
    model.latest_price = Some(of(f64::MAX));
    assert_eq!(
        model.target_at(1),
        Err("target position arithmetic is not finite".to_owned())
    );
}

#[test]
fn ticks_are_taken_in_with_their_timestamps() {
    let cutoff = TimeOfDay {
        seconds: 52_800,
        nanoseconds: 0,
    };
    let mut model = Lab0344Model::with_cutoff(&config(), cutoff);
    assert_eq!(
        model.last_executable_signal_time,
        Lab0344Model::new(&config()).last_executable_signal_time
    );
    let tick = session_tick(0, 4_000.0, 1.0);
    assert_eq!(
        model.ingest_timed(tick.clone(), 61_000_000_000, 1),
        Ok(None)
    );
    assert_eq!(
        model.current.map(|bar| bar.timestamp_ns),
        Some(120_000_000_000)
    );
    assert_eq!(
        model.ingest_timed(tick.clone(), 60_999_999_999, 1),
        Err("CTPD tick is out of order".to_owned())
    );
    assert_eq!(
        model.ingest_timed(tick.clone(), u64::MAX, 1),
        Err("CTPD bar endpoint overflow".to_owned())
    );
    assert_eq!(check_tick(&tick, "IF2609", true), Ok(()));
    assert_eq!(
        check_tick(&tick, "IF2609", false),
        Err("CTPD tick has invalid market fields".to_owned())
    );
    assert_eq!(clock_timestamp_ns(1, 2), Ok(1_002_000_000));
    assert_eq!(
        clock_timestamp_ns(-1, 0),
        Err("CTPD tick timestamp precedes Unix epoch".to_owned())
    );
    assert_eq!(
        clock_timestamp_ns(i64::MAX, 0),
        Err("CTPD tick timestamp overflow".to_owned())
    );
}

#[test]
fn a_day_has_one_signal() {
    let mut model = Lab0344Model::new(&config());
    for row in 0..140 {
        let price = 4_000.0 + row as f64;
        model
            .ingest_at(session_tick(row, price, 100.0 + row as f64), 1)
            .unwrap();
        assert_eq!(model.signal_seen, row >= 60);
        assert!(model.pending_entry.is_none());
        assert_eq!(model.position.is_some(), (60..79).contains(&row));
    }
    model
        .ingest_at(tick_at(datetime("20260811 09:30:00"), 4_000.0, 1.0), 1)
        .unwrap();
    assert!(!model.signal_seen);
    assert_eq!(model.completed_rows, 0);
}

#[test]
fn targets_wait_until_every_leg_is_recovered() {
    let legs = ["IC2609", "IF2609"];
    let mut portfolio = Portfolio::default();
    for id in legs {
        let mut leg = config();
        leg.ctpd_instrument_id = id.into();
        portfolio.insert(id.into(), Lab0344Model::new(&leg));
    }
    let first_endpoint = datetime("20260810 09:31:00")
        .and_utc()
        .timestamp_nanos_opt()
        .unwrap() as u64;
    let history = (0..70)
        .map(|row| HistoryBar {
            timestamp_ns: first_endpoint + row * NANOSECONDS_PER_MINUTE,
            open: of(4_000.0 + row as f64),
            close: of(4_000.0 + row as f64),
            open_interest: of(if row == 59 { 100.0 } else { 99.0 }),
        })
        .collect::<Vec<_>>();
    let tick = |id: &str, time: &str| {
        let mut tick = tick_at(datetime(time), 4_080.0, 101.0);
        tick.instrument_id = id.into();
        tick
    };
    let mut published = Publication::new(portfolio);
    assert_eq!(published.legs(), 2);
    assert!(!published.is_synchronized());
    published.recover("IF2609", &history, false).unwrap();
    published
        .ingest_at(tick("IF2609", "20260810 10:40:00"), 1)
        .unwrap();
    assert!(published.targets().is_empty());
    published.recover("IC2609", &history, false).unwrap();
    assert!(published.is_synchronized());
    assert_eq!(published.targets().len(), 1);
    published
        .ingest_at(tick("IC2609", "20260810 10:40:00"), 1)
        .unwrap();
    assert_eq!(published.targets().len(), 2);
    // A leg that has not advanced keeps what it shows.
    published.recover("IC2609", &history, false).unwrap();
    assert_eq!(published.targets().len(), 2);

    published.lost();
    published
        .ingest_at(tick("IC2609", "20260810 10:41:00"), 1)
        .unwrap();
    assert!(published.targets().is_empty());
    for id in legs {
        published.recover(id, &history, true).unwrap();
        published.ingest_at(tick(id, "20260810 10:41:00"), 2).unwrap();
    }
    assert_eq!(published.targets().len(), 2);
    assert_eq!(
        published.recover("IH2609", &history, false),
        Err("no configured model for CTPD instrument IH2609".to_owned())
    );
    assert!(published.targets().is_empty());
}
