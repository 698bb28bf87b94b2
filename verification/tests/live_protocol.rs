use bullet::binary64::Binary64;
use bullet::live::model;
use bullet::live::protocol::{
    account_history, authorize, decode_cursor, encode_cursor, page_history, positions,
    AccountHistoryQuery, FillDirection, HistoricalFill, HistoryWindow, Position, Status,
    TargetPosition,
};

fn of(value: f64) -> Binary64 {
    Binary64::from_bits(value.to_bits())
}

fn back(value: Binary64) -> f64 {
    f64::from_bits(value.to_bits())
}

fn fill(trade_id: &str, created_at_ns: u64) -> HistoricalFill {
    HistoricalFill {
        trade_id: trade_id.into(),
        order_id: format!("order-{trade_id}"),
        product_id: "BULLET/FUTURES/IM2609".into(),
        direction: FillDirection::Short,
        price: of(4_000.0),
        amount: of(1.0),
        value: of(1_200_000.0),
        fee: of(0.0),
        created_at_ns,
    }
}

fn query() -> AccountHistoryQuery {
    AccountHistoryQuery {
        account_id: "BULLET/lab0334".into(),
        cursor: None,
        limit: None,
        start_at: None,
        end_at: None,
    }
}

const OPEN_WINDOW: HistoryWindow = HistoryWindow {
    start_at_ns: None,
    end_at_ns: None,
};

#[test]
fn account_history_cursor_keeps_coverage_stable_without_duplicates() {
    let fills: Vec<_> = (1..=3)
        .map(|at| HistoricalFill {
            trade_id: format!("fill-{at}"),
            order_id: format!("order-{at}"),
            product_id: "BULLET/FUTURES/IM2609".into(),
            direction: FillDirection::Long,
            price: of(4_000.0),
            amount: of(1.0),
            value: of(1_200_000.0),
            fee: of(0.0),
            created_at_ns: at,
        })
        .collect();
    let first = page_history(
        "BULLET/lab0334",
        fills.clone(),
        HistoryWindow {
            start_at_ns: Some(1),
            end_at_ns: Some(3),
        },
        &AccountHistoryQuery {
            account_id: "BULLET/lab0334".into(),
            cursor: None,
            limit: Some(2),
            start_at: None,
            end_at: None,
        },
    )
    .unwrap();
    let second = page_history(
        "BULLET/lab0334",
        fills,
        HistoryWindow {
            start_at_ns: Some(0),
            end_at_ns: Some(4),
        },
        &AccountHistoryQuery {
            account_id: "BULLET/lab0334".into(),
            cursor: first.next_cursor.clone(),
            limit: Some(2),
            start_at: None,
            end_at: None,
        },
    )
    .unwrap();

    assert_eq!(
        first
            .records
            .iter()
            .map(|record| record.trade_id.as_str())
            .collect::<Vec<_>>(),
        vec!["fill-3", "fill-2"]
    );
    assert_eq!(
        second
            .records
            .iter()
            .map(|record| record.trade_id.as_str())
            .collect::<Vec<_>>(),
        vec!["fill-1"]
    );
    assert_eq!(first.coverage, second.coverage);
    assert!(second.next_cursor.is_none());
}

#[test]
fn serializes_short_exposure_and_positive_profit_consistently() {
    let position = Position::from_target(
        "BULLET/lab0334",
        &TargetPosition {
            symbol: "IF8888".into(),
            target_instrument_id: "IF2609".into(),
            exchange_id: "CFFEX".into(),
            contracts: of(-3.0),
            entry_price: of(4_000.0),
            latest_price: of(3_990.0),
            multiplier: of(300.0),
            updated_at_ms: 1,
        },
    )
    .unwrap();
    assert!(back(position.amount).is_sign_negative());
    assert!(back(position.notional_value).is_sign_negative());
    assert!(back(position.valuation).is_sign_positive());
    assert!(back(position.floating_profit).is_sign_positive());
}

#[test]
fn pages_hold_every_fill_once_and_the_newest_first() {
    let fills: Vec<_> = (0..23)
        .map(|n| fill(&format!("t{:02}", (n * 7) % 23), 1_000 + ((n * 7) % 23) / 3))
        .collect();
    let mut expected: Vec<(u64, String)> = fills
        .iter()
        .map(|fill| (fill.created_at_ns, fill.trade_id.clone()))
        .collect();
    expected.sort();
    expected.reverse();
    let mut asked = query();
    asked.limit = Some(5);
    let mut found = Vec::new();
    loop {
        let page = page_history("BULLET/lab0334", fills.clone(), OPEN_WINDOW, &asked).unwrap();
        assert!(page.records.len() <= 5);
        found.extend(page.records.iter().map(|record| record.trade_id.clone()));
        match page.next_cursor {
            Some(cursor) => asked.cursor = Some(cursor),
            None => break,
        }
    }
    assert_eq!(
        found,
        expected.into_iter().map(|(_, id)| id).collect::<Vec<_>>()
    );
}

#[test]
fn a_record_shows_its_fill() {
    let page = page_history(
        "BULLET/lab0334",
        vec![fill("a", 1_786_654_800_000_000_001)],
        HistoryWindow {
            start_at_ns: Some(0),
            end_at_ns: Some(u64::MAX / 4),
        },
        &query(),
    )
    .unwrap();
    assert_eq!(page.account_id, "BULLET/lab0334");
    assert_eq!(page.record_type, "TRADE_FILL_V1");
    let record = &page.records[0];
    assert_eq!(record.exchange, "CFFEX");
    assert_eq!(record.order_id.as_deref(), Some("order-a"));
    assert_eq!(record.direction, "SHORT");
    assert_eq!(record.value, of(1_200_000.0));
    assert_eq!(record.value_currency, "CNY");
    assert_eq!(record.created_at, "2026-08-13T21:00:00.000000001Z");
    assert_eq!(
        page.coverage[0].start_at.as_deref(),
        Some("1970-01-01T00:00:00.000000000Z")
    );
    assert!(!page.coverage[0].complete);
    assert!(page.next_cursor.is_none());
}

#[test]
fn filters_are_instants_and_stand_in_order() {
    let fills = || vec![fill("a", 1_000_000_000), fill("b", 2_000_000_000), fill("c", 3_000_000_000)];
    let mut asked = query();
    asked.start_at = Some("1970-01-01T08:00:02+08:00".into());
    asked.end_at = Some("1970-01-01T00:00:02.5Z".into());
    let page = page_history("BULLET/lab0334", fills(), OPEN_WINDOW, &asked).unwrap();
    assert_eq!(page.records.len(), 1);
    assert_eq!(page.records[0].trade_id, "b");
    asked.end_at = Some("1970-01-01T00:00:01Z".into());
    assert_eq!(
        page_history("BULLET/lab0334", fills(), OPEN_WINDOW, &asked).err(),
        Some(Status::BadRequest)
    );
    asked.end_at = Some("tomorrow".into());
    assert_eq!(
        page_history("BULLET/lab0334", fills(), OPEN_WINDOW, &asked).err(),
        Some(Status::BadRequest)
    );
    asked.end_at = Some("1969-12-31T23:59:59Z".into());
    assert_eq!(
        page_history("BULLET/lab0334", fills(), OPEN_WINDOW, &asked).err(),
        Some(Status::BadRequest)
    );
}

#[test]
fn a_limit_is_kept_between_one_and_five_hundred() {
    let fills: Vec<_> = (0..600).map(|n| fill(&format!("{n:03}"), n)).collect();
    for (limit, expected) in [(None, 100), (Some(0), 1), (Some(7), 7), (Some(10_000), 500)] {
        let mut asked = query();
        asked.limit = limit;
        let page = page_history("BULLET/lab0334", fills.clone(), OPEN_WINDOW, &asked).unwrap();
        assert_eq!(page.records.len(), expected);
    }
}

#[test]
fn a_time_beyond_the_calendar_is_an_error_of_the_server() {
    assert_eq!(
        page_history(
            "BULLET/lab0334",
            vec![fill("a", u64::MAX)],
            OPEN_WINDOW,
            &query()
        )
        .err(),
        Some(Status::InternalServerError)
    );
}

#[test]
fn another_account_is_refused_or_empty() {
    let mut asked = query();
    assert!(account_history("BULLET/lab0334", vec![], OPEN_WINDOW, &asked).is_ok());
    asked.account_id = "other".into();
    assert_eq!(
        account_history("BULLET/lab0334", vec![], OPEN_WINDOW, &asked).err(),
        Some(Status::BadRequest)
    );
    let target = TargetPosition::of_model(
        &model::TargetPosition {
            symbol: "IF8888".into(),
            ctpd_instrument_id: "IDX-CFFEX-IF".into(),
            exchange_id: "CFFEX".into(),
            contracts: 2,
            entry_price: of(4_000.0),
            latest_price: of(4_001.5),
            multiplier: of(300.0),
            updated_at_ms: 5,
        },
        "IF2609",
    );
    let unshowable = TargetPosition {
        symbol: "IC8888".into(),
        target_instrument_id: "IC2609".into(),
        exchange_id: "CFFEX".into(),
        contracts: of(f64::MAX),
        entry_price: of(1.0),
        latest_price: of(2.0),
        multiplier: of(2.0),
        updated_at_ms: 5,
    };
    let targets = [unshowable, target];
    assert!(positions("BULLET/lab0334", "other", &targets).is_empty());
    let found = positions("BULLET/lab0334", "BULLET/lab0334", &targets);
    assert_eq!(found.len(), 1);
    assert_eq!(found[0].position_id, "BULLET/FUTURES/IF8888");
    assert_eq!(found[0].product_id, "BULLET/FUTURES/IF2609");
    assert_eq!(found[0].notional_value, of(2.0 * 4_001.5 * 300.0));
    assert_eq!(found[0].valuation, of(900.0));
    assert_eq!(found[0].updated_at, 5);
    assert!(found[0].margin.is_none());
}

#[test]
fn only_the_exact_token_passes() {
    assert_eq!(authorize(None, None), Ok(()));
    assert_eq!(authorize(Some("anything"), None), Ok(()));
    assert_eq!(authorize(Some("Bearer secret"), Some("secret")), Ok(()));
    for header in ["Bearer secre", "Bearer secreT", "bearer secret", "secret", ""] {
        assert_eq!(
            authorize(Some(header), Some("secret")),
            Err(Status::Unauthorized)
        );
    }
    assert_eq!(authorize(None, Some("secret")), Err(Status::Unauthorized));
}

#[test]
fn cursors_are_framed_for_addresses() {
    let json = b"{\"trade_id\":\"\xc3\xbf?>\"}";
    let framed = encode_cursor(json);
    assert_eq!(framed, "eyJ0cmFkZV9pZCI6IsO_Pz4ifQ");
    assert_eq!(decode_cursor(&framed), Ok(json.to_vec()));
    assert_eq!(decode_cursor("not base64!"), Err(Status::BadRequest));
    assert_eq!(decode_cursor("eyJ0cmFkZV9pZCI6IsO_Pz4ifQ=="), Err(Status::BadRequest));
}
