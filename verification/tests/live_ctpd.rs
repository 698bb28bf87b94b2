use bullet::binary64::Binary64;
use bullet::fixed_capital::HistoryBar;
use bullet::live::ctpd::{
    after_connection, history_bar_from_kline, kline_recovery_windows, kline_url, received,
    recovered_bars, recovery_windows, sort_recovered_klines, tick_url, CtpdKline, FeedEvent,
    RecoveredKline, Reconnection, RecoveryAction, RecoveryRun, SseDecoder,
};
use bullet::live::market_time::{
    ctpd_ms_from_timestamp_ns, is_cffex_lunch_break, timestamp_ns_from_shanghai_wall_clock,
    WallClock,
};
use chrono::{NaiveDateTime, TimeZone, Utc};

fn of(value: f64) -> Binary64 {
    Binary64::from_bits(value.to_bits())
}

fn reading(text: &str) -> WallClock {
    let clock = NaiveDateTime::parse_from_str(text, "%Y%m%d %H:%M:%S")
        .unwrap()
        .and_utc();
    WallClock {
        seconds: clock.timestamp(),
        nanoseconds: clock.timestamp_subsec_nanos(),
    }
}

#[test]
fn sse_decoder_handles_split_lines_and_ignores_other_events() {
    let mut decoder = SseDecoder::default();
    assert!(
        decoder
            .push(b"event: tick\ndata: {\"instrument_id\":")
            .unwrap()
            .is_empty()
    );
    let values = decoder
        .push(b"\"IF2609\"}\n\nevent: keepalive\ndata: x\n\n")
        .unwrap();
    assert_eq!(values, [r#"{"instrument_id":"IF2609"}"#]);
}

#[test]
fn keeps_ctpd_utc_klines_as_real_instants() {
    let start_ms = NaiveDateTime::parse_from_str("20260810 01:30:00", "%Y%m%d %H:%M:%S")
        .unwrap()
        .and_utc()
        .timestamp_millis();
    let bar = history_bar_from_kline(CtpdKline {
        start_ms,
        open: of(4_000.0),
        high: of(4_010.0),
        low: of(3_990.0),
        close: of(4_005.0),
        volume: 1,
        money: of(4_005.0),
        open_interest: of(1.0),
        closed: true,
    })
    .unwrap();
    let expected = timestamp_ns_from_shanghai_wall_clock(
        reading("20260810 09:31:00"),
    )
    .unwrap();
    assert_eq!(bar.timestamp_ns, expected);
    assert_eq!(
        ctpd_ms_from_timestamp_ns(expected).unwrap(),
        start_ms + 60_000
    );
}

#[test]
fn splits_stale_parquet_recovery_into_bounded_daily_windows() {
    let day = 24 * 60 * 60 * 1_000;
    assert_eq!(
        kline_recovery_windows(1_000, 1_000 + 2 * day + 1),
        vec![
            (1_000, 1_000 + day),
            (1_000 + day, 1_000 + 2 * day),
            (1_000 + 2 * day, 1_000 + 2 * day + 1),
        ]
    );
    assert!(kline_recovery_windows(1_000, 1_000).is_empty());
}

#[test]
fn recognizes_the_cffex_lunch_break() {
    let at = |hour, minute| {
        Utc.with_ymd_and_hms(2026, 8, 11, hour, minute, 0)
            .unwrap()
            .timestamp()
    };

    assert!(!is_cffex_lunch_break(at(3, 29)));
    assert!(is_cffex_lunch_break(at(3, 30)));
    assert!(is_cffex_lunch_break(at(4, 59)));
    assert!(!is_cffex_lunch_break(at(5, 0)));
}

#[test]
fn orders_same_timestamp_recovery_by_market_identifier() {
    let bar = |timestamp_ns| HistoryBar {
        timestamp_ns,
        open: of(4_000.0),
        high: of(4_000.0),
        low: of(4_000.0),
        close: of(4_000.0),
        volume: of(1.0),
        money: of(4_000.0),
        open_interest: of(1.0),
    };
    let mut recovered = vec![
        RecoveredKline {
            market_instrument_id: "IDX-CFFEX-IM".into(),
            bar: bar(2),
        },
        RecoveredKline {
            market_instrument_id: "IDX-CFFEX-IH".into(),
            bar: bar(1),
        },
        RecoveredKline {
            market_instrument_id: "IDX-CFFEX-IF".into(),
            bar: bar(1),
        },
        RecoveredKline {
            market_instrument_id: "IDX-CFFEX-IC".into(),
            bar: bar(1),
        },
    ];

    sort_recovered_klines(&mut recovered);

    assert_eq!(
        recovered
            .iter()
            .map(|kline| (kline.bar.timestamp_ns, kline.market_instrument_id.as_str()))
            .collect::<Vec<_>>(),
        vec![
            (1, "IDX-CFFEX-IC"),
            (1, "IDX-CFFEX-IF"),
            (1, "IDX-CFFEX-IH"),
            (2, "IDX-CFFEX-IM"),
        ]
    );
}

fn kline(start_ms: i64) -> CtpdKline {
    CtpdKline {
        start_ms,
        open: of(4_000.0),
        high: of(4_010.0),
        low: of(3_990.0),
        close: of(4_005.0),
        volume: 1,
        money: of(4_005.0),
        open_interest: of(1.0),
        closed: true,
    }
}

fn recovered(market: &str, timestamp_ns: u64) -> RecoveredKline {
    RecoveredKline {
        market_instrument_id: market.into(),
        bar: HistoryBar {
            timestamp_ns,
            open: of(1.0),
            high: of(1.0),
            low: of(1.0),
            close: of(1.0),
            volume: of(0.0),
            money: of(0.0),
            open_interest: of(0.0),
        },
    }
}

#[test]
fn a_stream_reads_the_same_however_it_is_cut() {
    let stream = "event: tick\r\ndata: {\"price\": \r\ndata:1}\r\n\r\n: remark\nid: 7\nevent:tick\ndata:\u{4e2d}\n\ndata: lost\n\nevent: tick\n\n".as_bytes();
    let mut whole = SseDecoder::default();
    let expected = whole.push(stream).unwrap();
    assert_eq!(expected, ["{\"price\": \n1}", "\u{4e2d}"]);
    for cut in 0..=stream.len() {
        let mut decoder = SseDecoder::default();
        let mut found = decoder.push(&stream[..cut]).unwrap();
        found.extend(decoder.push(&stream[cut..]).unwrap());
        assert_eq!(found, expected);
    }
    let mut decoder = SseDecoder::default();
    let mut found = Vec::new();
    for byte in stream {
        found.extend(decoder.push(&[*byte]).unwrap());
    }
    assert_eq!(found, expected);
}

#[test]
fn a_line_that_is_not_text_ends_the_connection() {
    let mut decoder = SseDecoder::default();
    assert_eq!(
        decoder.push(b"data: \xff\n"),
        Err("CTPD SSE is not UTF-8".to_owned())
    );
}

#[test]
fn a_connection_is_given_up_with_its_reason() {
    let mut decoder = SseDecoder::default();
    assert_eq!(
        received(&mut decoder, FeedEvent::Bytes(b"event: tick\ndata: 1\n\n".to_vec()), 250),
        Ok(vec!["1".to_owned()])
    );
    assert_eq!(
        received(&mut decoder, FeedEvent::Silence, 10_000),
        Err("no CTPD tick for 10000 ms".to_owned())
    );
    assert_eq!(
        received(&mut decoder, FeedEvent::Ended, 250),
        Err("CTPD SSE stream ended".to_owned())
    );
    assert_eq!(
        received(&mut decoder, FeedEvent::Failed("reset".into()), 250),
        Err("CTPD SSE read failed: reset".to_owned())
    );
}

#[test]
fn a_lost_feed_clears_all_but_in_the_midday_break() {
    let at = |hour, minute| {
        Utc.with_ymd_and_hms(2026, 8, 11, hour, minute, 0)
            .unwrap()
            .timestamp()
    };
    assert_eq!(
        after_connection(true, at(2, 0)),
        Reconnection {
            report: true,
            clear: true,
            recover: true,
        }
    );
    assert_eq!(
        after_connection(true, at(4, 0)),
        Reconnection {
            report: false,
            clear: false,
            recover: true,
        }
    );
}

#[test]
fn the_midday_break_is_known_in_every_year() {
    assert!(is_cffex_lunch_break(-86_400 + 4 * 3_600));
    assert!(!is_cffex_lunch_break(-86_400 + 5 * 3_600));
    assert!(is_cffex_lunch_break(-8_334_601_228_800 + 4 * 3_600));
    assert!(!is_cffex_lunch_break(8_210_266_876_799));
}

#[test]
fn implausible_klines_are_refused() {
    let refused = Err("CTPD Kline has invalid market values".to_owned());
    let changes: [fn(&mut CtpdKline); 8] = [
        |kline| kline.start_ms = -1,
        |kline| kline.open = of(f64::NAN),
        |kline| kline.low = of(0.0),
        |kline| kline.high = of(4_004.0),
        |kline| kline.low = of(4_001.0),
        |kline| kline.volume = -1,
        |kline| kline.money = of(-1.0),
        |kline| kline.open_interest = of(f64::INFINITY),
    ];
    for change in changes {
        let mut changed = kline(0);
        change(&mut changed);
        assert_eq!(history_bar_from_kline(changed), refused);
    }
    assert_eq!(
        history_bar_from_kline(kline(i64::MAX)),
        Err("CTPD Kline timestamp overflow".to_owned())
    );
    let bar = history_bar_from_kline(kline(0)).unwrap();
    assert_eq!(bar.timestamp_ns, 60_000_000_000);
    assert_eq!(bar.volume, of(1.0));
    assert_eq!(bar.high, of(4_010.0));
}

#[test]
fn recovery_starts_where_history_ends() {
    assert_eq!(
        recovery_windows(None, 0),
        Err("cannot recover CTPD Klines before Parquet history is seeded".to_owned())
    );
    assert_eq!(
        recovery_windows(Some(2_000_000), 1),
        Err("CTPD clock precedes the seeded Parquet history".to_owned())
    );
    assert_eq!(
        recovery_windows(Some(2_000_000), 86_400_003),
        Ok(vec![(2, 86_400_002), (86_400_002, 86_400_003)])
    );
}

#[test]
fn only_closed_klines_are_recovered_in_the_order_of_their_starts() {
    let mut open = kline(60_000);
    open.closed = false;
    let bars = recovered_bars("IDX-CFFEX-IF", vec![kline(120_000), open, kline(0)]).unwrap();
    assert_eq!(
        bars.iter()
            .map(|found| (found.market_instrument_id.as_str(), found.bar.timestamp_ns))
            .collect::<Vec<_>>(),
        vec![
            ("IDX-CFFEX-IF", 60_000_000_000),
            ("IDX-CFFEX-IF", 180_000_000_000),
        ]
    );
    let mut bad = kline(0);
    bad.volume = -1;
    assert!(recovered_bars("IDX-CFFEX-IF", vec![kline(60_000), bad]).is_err());
}

#[test]
fn recovered_bars_are_flushed_once_for_each_time_that_moved_something() {
    let mut run = RecoveryRun::new(vec![
        recovered("B", 2),
        recovered("B", 1),
        recovered("A", 1),
        recovered("A", 3),
    ]);
    let mut seen = Vec::new();
    loop {
        match run.action() {
            RecoveryAction::Ingest(at) => {
                let kline = &run.klines[at];
                seen.push(format!(
                    "{}{}",
                    kline.market_instrument_id, kline.bar.timestamp_ns
                ));
                let applied = kline.bar.timestamp_ns != 2;
                run.ingested(applied);
            }
            RecoveryAction::Flush => {
                seen.push("flush".to_owned());
                run.flushed();
            }
            RecoveryAction::Finished(applied) => {
                assert_eq!(applied, 3);
                break;
            }
        }
    }
    assert_eq!(seen, ["A1", "B1", "flush", "B2", "A3", "flush"]);
}

#[test]
fn requests_name_the_instrument_and_the_window() {
    assert_eq!(
        tick_url("https://ctpd.example.test//", "IDX-CFFEX-IF"),
        "https://ctpd.example.test/v1/ticks?instrument_id=IDX-CFFEX-IF"
    );
    assert_eq!(
        kline_url("https://ctpd.example.test", "IDX-CFFEX-IF", -5, 60_000),
        "https://ctpd.example.test/v1/klines?instrument_id=IDX-CFFEX-IF&start_ms=-5&end_ms=60000&interval_secs=60"
    );
}
