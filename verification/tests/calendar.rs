use bullet::calendar::{clock, compact_clock_seconds, is_compact_date, push_clock, TimeOfDay, TradingDay};
use bullet::fixed_capital::daily::trading_day;
use chrono::{DateTime, NaiveDate};

#[test]
fn days_exist_or_do_not() {
    assert!(TradingDay::new(2024, 2, 29).is_some());
    assert!(TradingDay::new(2023, 2, 29).is_none());
    assert!(TradingDay::new(1900, 2, 29).is_none());
    assert!(TradingDay::new(2000, 2, 29).is_some());
    assert!(TradingDay::new(2026, 13, 1).is_none());
    assert!(TradingDay::new(2026, 4, 31).is_none());
    assert!(TradingDay::new(2026, 0, 1).is_none());
}

#[test]
fn days_are_read_and_written() {
    let day = TradingDay::parse("2026-08-10").unwrap();
    assert_eq!((day.year(), day.month(), day.day()), (2026, 8, 10));
    assert_eq!(day.to_text(), "2026-08-10");
    assert_eq!(day.to_compact_text(), "20260810");
    assert!(day.is_same(&TradingDay::new(2026, 8, 10).unwrap()));
    assert!(TradingDay::parse("2026-02-30").is_none());
    assert!(TradingDay::parse("yesterday").is_none());
}

#[test]
fn days_stand_in_the_order_of_the_calendar() {
    let days = ["1970-01-01", "1970-12-31", "1971-01-01", "2024-02-29", "2024-03-01"];
    let days: Vec<_> = days
        .iter()
        .map(|day| TradingDay::parse(day).unwrap())
        .collect();
    for i in 0..days.len() {
        for j in 0..days.len() {
            assert_eq!(days[i].is_earlier(&days[j]), i < j);
        }
    }
}

#[test]
fn day_numbers_count_from_the_epoch() {
    for days in [0, 1, 58, 59, 365, 789, 11_016, 20_675, 47_540, 213_503] {
        let expected = NaiveDate::from_ymd_opt(1970, 1, 1)
            .unwrap()
            .checked_add_days(chrono::Days::new(days))
            .unwrap()
            .to_string();
        assert_eq!(TradingDay::after_epoch(days as u32).to_text(), expected);
    }
}

#[test]
fn timestamps_show_their_day_and_time() {
    for timestamp_ns in [0, 86_399_999_999_999, 1_786_654_800_000_000_001, 18_446_744_073_709_551_615] {
        let expected = DateTime::from_timestamp(
            (timestamp_ns / 1_000_000_000) as i64,
            (timestamp_ns % 1_000_000_000) as u32,
        )
        .unwrap()
        .format("%Y-%m-%d %H:%M:%S")
        .to_string();
        let mut text = String::new();
        push_clock(&mut text, timestamp_ns, " ");
        assert_eq!(text, expected);
        assert_eq!(clock(timestamp_ns).0.to_text(), expected[..10]);
    }
}

#[test]
fn times_are_read_and_compared() {
    let early = TimeOfDay::parse("09:30:00").unwrap();
    let late = TimeOfDay::parse("14:40:00").unwrap();
    assert!(early.is_no_later(late));
    assert!(late.is_no_later(late));
    assert!(!late.is_no_later(early));
    assert!(TimeOfDay::parse("24:00:00").is_none());
    assert!(TimeOfDay::parse("9.30").is_none());
}

#[test]
fn compact_forms_are_read() {
    assert!(is_compact_date("20260810"));
    assert!(!is_compact_date("20260832"));
    assert_eq!(compact_clock_seconds("19700102 00:00:01"), Some(86_401));
    assert_eq!(compact_clock_seconds("19691231 23:59:59"), Some(-1));
    assert_eq!(compact_clock_seconds("19700102"), None);
}

#[test]
fn a_trading_day_is_the_day_of_shanghai() {
    assert_eq!(
        trading_day(15 * 3_600_000_000_000).unwrap().to_text(),
        "1970-01-01"
    );
    assert_eq!(
        trading_day(16 * 3_600_000_000_000).unwrap().to_text(),
        "1970-01-02"
    );
    assert!(trading_day(u64::MAX).is_err());
}
