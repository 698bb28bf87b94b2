use bullet::binary64::Binary64;
use bullet::data::{
    append_batch, append_complete_batch, append_history_batch, history_tail, interpret_timestamp,
    validate_timestamps, Column, ColumnBatch, DataError, HistoryBar,
};
use bullet::fixed_capital::TimestampInterpretation;

fn of(value: f64) -> Binary64 {
    Binary64::from_bits(value.to_bits())
}

fn numbers(values: &[f64]) -> Column<Binary64> {
    Column::Values(values.iter().map(|value| Some(of(*value))).collect())
}

fn dates(values: &[i64]) -> Column<i64> {
    Column::Values(values.iter().map(|value| Some(*value)).collect())
}

fn batch(date: &[i64]) -> ColumnBatch {
    let prices: Vec<f64> = (0..date.len()).map(|row| 100.0 + row as f64).collect();
    ColumnBatch {
        rows: date.len(),
        date: dates(date),
        open: numbers(&prices),
        high: numbers(&prices),
        low: numbers(&prices),
        close: numbers(&prices),
        volume: numbers(&prices),
        money: numbers(&prices),
        open_interest: numbers(&prices),
    }
}

#[test]
fn bars_are_read_from_the_columns_of_batches() {
    let mut bars = Vec::new();
    append_batch(&mut bars, &batch(&[1, 2])).unwrap();
    append_batch(&mut bars, &batch(&[3])).unwrap();
    assert_eq!(bars.len(), 3);
    assert_eq!(bars[0].timestamp_ns, 1);
    assert_eq!(bars[1].open.value(), of(101.0));
    assert_eq!(bars[2].close.value(), of(100.0));
    assert_eq!(validate_timestamps(&bars), Ok(()));
    append_batch(&mut bars, &batch(&[3])).unwrap();
    assert_eq!(
        validate_timestamps(&bars),
        Err(DataError::NonIncreasingTimestamp { row: 3 })
    );
}

#[test]
fn a_tail_keeps_the_newest_bars_with_their_open_interest() {
    let mut bars = Vec::new();
    append_history_batch(&mut bars, &batch(&[1, 2, 3])).unwrap();
    let tail = history_tail(bars.clone(), 2).unwrap();
    assert_eq!(tail.len(), 2);
    assert_eq!(tail[0].timestamp_ns, 2);
    assert_eq!(tail[1].open_interest, of(102.0));
    assert_eq!(history_tail(bars.clone(), 9).unwrap(), bars);
    assert_eq!(history_tail(bars, 0), Err(DataError::EmptyTail));
    let bar = |timestamp_ns| HistoryBar {
        timestamp_ns,
        open: of(1.0),
        close: of(1.0),
        open_interest: of(1.0),
    };
    assert_eq!(
        history_tail(vec![bar(1), bar(1)], 1),
        Err(DataError::NonIncreasingTimestamp { row: 1 })
    );
}

#[test]
fn columns_are_checked_before_rows() {
    let refused = |change: &dyn Fn(&mut ColumnBatch)| {
        let mut changed = batch(&[1, 2]);
        change(&mut changed);
        let mut bars = Vec::new();
        append_batch(&mut bars, &changed).unwrap_err()
    };
    assert_eq!(
        refused(&|batch| batch.date = Column::Missing),
        DataError::MissingColumn("date")
    );
    assert_eq!(
        refused(&|batch| batch.close = Column::OtherType),
        DataError::InvalidColumnType("close")
    );
    assert_eq!(
        refused(&|batch| batch.open = Column::Values(vec![Some(of(1.0)), None])),
        DataError::NullValue {
            column: "open",
            row: 1,
        }
    );
    assert_eq!(
        refused(&|batch| batch.date = dates(&[-1, 2])),
        DataError::InvalidTimestamp { row: 0, value: -1 }
    );
    assert_eq!(
        refused(&|batch| batch.close = numbers(&[1.0, 0.0])),
        DataError::InvalidPrice {
            column: "close",
            row: 1,
            value: of(0.0),
        }
    );
}

#[test]
fn history_has_positive_prices_and_no_negative_open_interest() {
    let mut changed = batch(&[1, 2]);
    changed.open_interest = numbers(&[1.0, f64::NAN]);
    let mut bars = Vec::new();
    assert!(append_history_batch(&mut bars, &changed).is_err());
}

#[test]
fn complete_bars_take_their_instants_from_the_declared_zone() {
    let hours: i64 = 8 * 3_600_000_000_000;
    let mut bars = Vec::new();
    append_complete_batch(
        &mut bars,
        &batch(&[hours, hours + 5]),
        None,
        TimestampInterpretation::NaiveAsiaShanghaiWallClock,
    )
    .unwrap();
    append_complete_batch(
        &mut bars,
        &batch(&[7]),
        Some("Asia/Shanghai"),
        TimestampInterpretation::DeclaredAsiaShanghai,
    )
    .unwrap();
    assert_eq!(
        bars.iter().map(|bar| bar.timestamp_ns).collect::<Vec<_>>(),
        [0, 5, 7]
    );
    assert_eq!(bars[1].money, of(101.0));
    assert_eq!(
        append_complete_batch(
            &mut bars,
            &batch(&[7]),
            Some("UTC"),
            TimestampInterpretation::DeclaredAsiaShanghai,
        ),
        Err(DataError::TimeZone)
    );
    assert_eq!(
        append_complete_batch(
            &mut bars,
            &batch(&[7]),
            Some("Asia/Shanghai"),
            TimestampInterpretation::NaiveAsiaShanghaiWallClock,
        ),
        Err(DataError::TimeZone)
    );
    assert_eq!(
        interpret_timestamp(
            None,
            TimestampInterpretation::DeclaredAsiaShanghai,
            7,
            0
        ),
        Err(DataError::TimeZone)
    );
}

#[test]
fn unreadable_data_is_reported_in_words() {
    assert_eq!(
        DataError::MissingColumn("date").to_text(""),
        "missing required column `date`"
    );
    assert_eq!(
        DataError::InvalidPrice {
            column: "open",
            row: 3,
            value: of(-1.5),
        }
        .to_text("-1.5"),
        "column `open` has invalid price -1.5 at row 3"
    );
    assert_eq!(
        DataError::InvalidTimestamp { row: 0, value: -7 }.to_text("unused"),
        "date has invalid timestamp -7 at row 0"
    );
    assert_eq!(
        DataError::NonIncreasingTimestamp { row: 12 }.to_text(""),
        "date must strictly increase; row 12 is out of order"
    );
    assert_eq!(
        DataError::EmptyTail.to_text(""),
        "history tail must contain at least one bar"
    );
    assert_eq!(
        DataError::Open("gone".into()).to_text(""),
        "cannot open Parquet file: gone"
    );
}
