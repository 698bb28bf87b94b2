use bullet::binary64::Binary64;
use bullet::fixed_capital::{HistoryBar, InstrumentHistory};
use bullet::live::command::{check_latency, latency, Command, Latency, Sample};
use bullet::live::linkit::{check_group, format_signal, messages_url, LiveTradeSignal};
use bullet::live::market_time::{
    ctpd_ms_from_timestamp_ns, market_datetime, timestamp_ns_from_ctpd_ms,
    timestamp_ns_from_shanghai_wall_clock, WallClock,
};
use bullet::live::seed::{append_recovered, check_seed, merge_histories, MergedBar};
use chrono::{NaiveDateTime, TimeZone, Utc};

fn of(value: f64) -> Binary64 {
    Binary64::from_bits(value.to_bits())
}

fn reading(clock: NaiveDateTime) -> WallClock {
    WallClock {
        seconds: clock.and_utc().timestamp(),
        nanoseconds: clock.and_utc().timestamp_subsec_nanos(),
    }
}

fn arguments(values: &[&str]) -> Vec<String> {
    values.iter().map(|value| value.to_string()).collect()
}

fn signal() -> LiveTradeSignal {
    LiveTradeSignal {
        candidate_id: "IM8888-1786654800000000000-1".into(),
        symbol: "IM8888".into(),
        target_instrument_id: "IM2609".into(),
        side: "LONG".into(),
        action: "OPEN",
        contracts: of(3.0),
        price: of(7_123.5),
        at_ns: 1_786_654_800_000_000_000,
    }
}

#[test]
fn renders_a_shanghai_timestamp() {
    assert_eq!(
        format_signal(&signal(), "3").unwrap(),
        "Bullet live simulated target \u{b7} lab0334\nSignal: OPEN LONG 3 IM2609 @ 7123.50\nSource: current CTPD live feed \u{b7} execution: simulated target only, no broker order\nStrategy: lab0334 \u{b7} symbol: IM8888 \u{b7} time: 2026-08-14T05:00:00+08:00\nSignal ID: IM8888-1786654800000000000-1"
    );
}

#[test]
fn a_signal_beyond_the_calendar_is_not_announced() {
    let mut late = signal();
    late.at_ns = u64::MAX;
    assert_eq!(
        format_signal(&late, "3"),
        Err("signal timestamp outside chrono range".to_owned())
    );
}

#[test]
fn messages_go_to_groups() {
    assert_eq!(
        messages_url("https://linkit.example.test/"),
        "https://linkit.example.test/bot/v1/messages"
    );
    assert_eq!(check_group("group"), Ok(()));
    assert_eq!(
        check_group("direct"),
        Err("Linkit target conversation is not a group".to_owned())
    );
}

#[test]
fn translates_shanghai_wall_clock_to_a_real_utc_instant() {
    let market = NaiveDateTime::parse_from_str("20260812 11:10:00", "%Y%m%d %H:%M:%S").unwrap();
    let timestamp_ns = timestamp_ns_from_shanghai_wall_clock(reading(market)).unwrap();
    let utc = Utc
        .timestamp_nanos(i64::try_from(timestamp_ns).unwrap())
        .to_rfc3339();

    assert_eq!(utc, "2026-08-12T03:10:00+00:00");
    assert_eq!(market_datetime(timestamp_ns).unwrap(), reading(market));
}

#[test]
fn times_outside_the_calendar_are_refused() {
    assert_eq!(
        market_datetime(u64::MAX),
        Err("timestamp outside chrono range".to_owned())
    );
    assert_eq!(
        ctpd_ms_from_timestamp_ns(u64::MAX),
        Err("timestamp outside chrono range".to_owned())
    );
    assert!(timestamp_ns_from_ctpd_ms(-1).is_err());
    assert!(timestamp_ns_from_ctpd_ms(i64::MAX).is_err());
    let instant = |seconds, nanoseconds| {
        timestamp_ns_from_shanghai_wall_clock(WallClock {
            seconds,
            nanoseconds,
        })
    };
    assert_eq!(
        instant(0, 0),
        Err("market timestamp before epoch".to_owned())
    );
    assert_eq!(
        instant(8_210_266_876_799, 0),
        Err("market timestamp outside chrono range".to_owned())
    );
    assert_eq!(
        instant(-8_334_601_228_800, 0),
        Err("Shanghai market timestamp is not unambiguous".to_owned())
    );
    assert_eq!(
        instant(-8_334_601_228_800 + 28_800, 0),
        Err("market timestamp outside chrono range".to_owned())
    );
    assert_eq!(instant(28_859, 1_500_000_000), Ok(60_500_000_000));
}

#[test]
fn feed_milliseconds_go_there_and_back() {
    assert_eq!(timestamp_ns_from_ctpd_ms(1_786_325_400_123), Ok(1_786_325_400_123_000_000));
    assert_eq!(ctpd_ms_from_timestamp_ns(1_786_325_400_123_999_999), Ok(1_786_325_400_123));
}

#[test]
fn arguments_are_read_exactly() {
    assert_eq!(
        Command::parse(&arguments(&["serve", "a.toml"])),
        Ok(Command::Serve {
            config: "a.toml".into(),
        })
    );
    assert_eq!(
        Command::parse(&arguments(&["benchmark"])),
        Ok(Command::Benchmark { events: 20_000 })
    );
    assert_eq!(
        Command::parse(&arguments(&["benchmark", "5"])),
        Ok(Command::Benchmark { events: 5 })
    );
    assert_eq!(
        Command::parse(&arguments(&["seed-benchmark", "a.toml"])),
        Ok(Command::SeedBenchmark {
            config: "a.toml".into(),
        })
    );
    assert_eq!(
        Command::parse(&arguments(&["replay", "a.toml", "b.jsonl"])),
        Ok(Command::Replay {
            config: "a.toml".into(),
            output: "b.jsonl".into(),
        })
    );
    assert_eq!(
        Command::parse(&arguments(&["verify-parity", "a.toml", "b.csv", "c.csv"])),
        Ok(Command::VerifyParity {
            config: "a.toml".into(),
            decisions: "b.csv".into(),
            labels: "c.csv".into(),
        })
    );
}

#[test]
fn arguments_that_do_not_fit_are_answered_with_the_usage() {
    let refused = |values: &[&str]| Command::parse(&arguments(values)).unwrap_err();
    assert_eq!(
        refused(&["serve"]),
        "usage: bullet-live serve <config.toml>"
    );
    assert_eq!(
        refused(&["benchmark", "0"]),
        "usage: bullet-live benchmark [event_count]"
    );
    assert_eq!(
        refused(&["benchmark", "5", "6"]),
        "usage: bullet-live benchmark [event_count]"
    );
    assert_eq!(
        refused(&["benchmark", "many", "6"]),
        "invalid digit found in string"
    );
    assert_eq!(
        refused(&["seed-benchmark", "a", "b"]),
        "usage: bullet-live seed-benchmark <config.toml>"
    );
    assert_eq!(
        refused(&["replay", "a"]),
        "usage: bullet-live replay <config.toml> <output.jsonl>"
    );
    assert_eq!(
        refused(&["verify-parity"]),
        "usage: bullet-live verify-parity <config.toml> <lab_candidate_decisions.csv> <lab_raw_candidate_labels.csv>"
    );
    assert!(refused(&[]).starts_with("usage: bullet-live <serve <config.toml>|benchmark"));
    assert_eq!(refused(&["Serve", "a"]), refused(&[]));
}

#[test]
fn latencies_are_those_of_sorted_samples() {
    let samples = (0..1_000_u64)
        .map(|n| Sample {
            nanoseconds: (n * 7) % 1_000,
        })
        .collect();
    let found = latency(samples);
    assert_eq!(
        found,
        Latency {
            events: 1_000,
            p50_ns: 500,
            p99_ns: 990,
            max_ns: 999,
        }
    );
    assert_eq!(check_latency(&found), Ok(()));
    let slow = Latency {
        p99_ns: 100_000_000,
        ..found
    };
    assert_eq!(
        check_latency(&slow),
        Err("p99 inference latency exceeds 100ms: 100000000ns".to_owned())
    );
}

#[test]
fn histories_merge_by_time_and_market() {
    let bar = |timestamp_ns| HistoryBar {
        timestamp_ns,
        open: of(1.0),
        high: of(1.0),
        low: of(1.0),
        close: of(1.0),
        volume: of(0.0),
        money: of(0.0),
        open_interest: of(0.0),
    };
    let histories = [
        InstrumentHistory {
            instrument: "B".into(),
            bars: vec![bar(1), bar(2), bar(5)],
        },
        InstrumentHistory {
            instrument: "A".into(),
            bars: vec![bar(2), bar(3)],
        },
    ];
    let merged = |history, bar, flush| MergedBar {
        history,
        bar,
        flush,
    };
    assert_eq!(
        merge_histories(&histories),
        vec![
            merged(0, 0, true),
            merged(1, 0, false),
            merged(0, 1, true),
            merged(1, 1, true),
            merged(0, 2, true),
        ]
    );
    assert!(merge_histories(&[]).is_empty());
}

#[test]
fn a_seed_has_bars_enough() {
    assert_eq!(
        check_seed("IF8888", 4_999),
        Err("IF8888 has fewer than 5000 Parquet bars".to_owned())
    );
    assert_eq!(check_seed("IF8888", 5_000), Ok(()));
}

#[test]
fn recovered_bars_join_a_seed_once() {
    let bar = |timestamp_ns| HistoryBar {
        timestamp_ns,
        open: of(1.0),
        high: of(4.0),
        low: of(0.5),
        close: of(2.0),
        volume: of(0.0),
        money: of(0.0),
        open_interest: of(3.0),
    };
    let mut history = Vec::new();
    assert_eq!(append_recovered(&mut history, &bar(5)), Ok(true));
    assert_eq!(append_recovered(&mut history, &bar(5)), Ok(false));
    assert_eq!(append_recovered(&mut history, &bar(4)), Ok(false));
    assert_eq!(append_recovered(&mut history, &bar(6)), Ok(true));
    assert_eq!(
        append_recovered(&mut history, &bar(u64::MAX)),
        Err("timestamp outside chrono range".to_owned())
    );
    assert_eq!(history.len(), 2);
    assert_eq!(history[1].timestamp_ns, 28_800_000_000_006);
    assert_eq!(history[1].close, of(2.0));
    assert_eq!(history[1].open_interest, of(3.0));
}
