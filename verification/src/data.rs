//! Market bars out of columns.

use crate::binary64::Binary64;
use crate::fixed_capital;
use crate::fixed_capital::TimestampInterpretation;
use crate::market::{Bar, Price};
use crate::rows;
use crate::text;
use vstd::prelude::*;

verus! {

/// A column of a batch, as it was found.
#[derive(Debug)]
pub enum Column<T> {
    Missing,
    /// The column is there, with values of another type.
    OtherType,
    /// The values of the rows; nothing stands for a null.
    Values(Vec<Option<T>>),
}

/// A batch of rows.
#[derive(Debug)]
pub struct ColumnBatch {
    pub rows: usize,
    pub date: Column<i64>,
    pub open: Column<Binary64>,
    pub high: Column<Binary64>,
    pub low: Column<Binary64>,
    pub close: Column<Binary64>,
    pub volume: Column<Binary64>,
    pub money: Column<Binary64>,
    pub open_interest: Column<Binary64>,
}

/// Whether a column has a value or a null in every row.
pub open spec fn full<T>(column: Column<T>, rows: usize) -> bool {
    column matches Column::Values(values) ==> values@.len() == rows
}

impl ColumnBatch {
    pub open spec fn well_formed(self) -> bool {
        &&& full(self.date, self.rows)
        &&& full(self.open, self.rows)
        &&& full(self.high, self.rows)
        &&& full(self.low, self.rows)
        &&& full(self.close, self.rows)
        &&& full(self.volume, self.rows)
        &&& full(self.money, self.rows)
        &&& full(self.open_interest, self.rows)
    }
}

/// A historical bar used to seed a live strategy before ticks take over.
///
/// `timestamp_ns` remains the timestamp of the source.
#[derive(Clone, Copy, Debug, PartialEq, Eq, Structural)]
pub struct HistoryBar {
    pub timestamp_ns: u64,
    pub open: Binary64,
    pub close: Binary64,
    pub open_interest: Binary64,
}

#[allow(inconsistent_fields)]
#[derive(Debug, PartialEq, Eq)]
pub enum DataError {
    Open(String),
    Parquet(String),
    Arrow(String),
    MissingColumn(&'static str),
    InvalidColumnType(&'static str),
    NullValue { column: &'static str, row: usize },
    InvalidTimestamp { row: usize, value: i64 },
    InvalidPrice { column: &'static str, row: usize, value: Binary64 },
    InvalidValue { column: &'static str, row: usize, value: Binary64 },
    InvalidHistoryValue { row: usize },
    EmptyTail,
    NonIncreasingTimestamp { row: usize },
    /// The declared time zone is not the one that the interpretation asks for.
    TimeZone,
}

impl DataError {
    /// The sentence that reports the error; `value` renders the price or value
    /// that the error carries, where it carries one.
    pub open spec fn sentence(self, value: Seq<char>) -> Seq<char> {
        match self {
            DataError::Open(error) => "cannot open Parquet file: "@ + error@,
            DataError::Parquet(error) => "cannot read Parquet file: "@ + error@,
            DataError::Arrow(error) => "cannot decode Parquet batch: "@ + error@,
            DataError::MissingColumn(column) => "missing required column `"@ + column@ + "`"@,
            DataError::InvalidColumnType(column) => "column `"@ + column@
                + "` has an unsupported type"@,
            DataError::NullValue { column, row } => "column `"@ + column@ + "` is null at row "@
                + text::numeral(row as nat),
            DataError::InvalidTimestamp { row, value } => "date has invalid timestamp "@
                + text::integer(value as int) + " at row "@ + text::numeral(row as nat),
            DataError::InvalidPrice { column, row, .. } => "column `"@ + column@
                + "` has invalid price "@ + value + " at row "@ + text::numeral(row as nat),
            DataError::InvalidValue { column, row, .. } => column@ + " must be finite at row "@
                + text::numeral(row as nat) + ": "@ + value,
            DataError::InvalidHistoryValue { row } => {
                "open, close and open_interest must be positive/finite at row "@ + text::numeral(
                    row as nat,
                )
            },
            DataError::EmptyTail => "history tail must contain at least one bar"@,
            DataError::NonIncreasingTimestamp { row } => "date must strictly increase; row "@
                + text::numeral(row as nat) + " is out of order"@,
            DataError::TimeZone => "date must declare the configured time zone"@,
        }
    }

    pub fn to_text(&self, value: &str) -> (r: String)
        ensures
            r@ == self.sentence(value@),
    {
        let mut out: String = String::new();
        match self {
            DataError::Open(error) => {
                out.append("cannot open Parquet file: ");
                out.append(error.as_str());
            },
            DataError::Parquet(error) => {
                out.append("cannot read Parquet file: ");
                out.append(error.as_str());
            },
            DataError::Arrow(error) => {
                out.append("cannot decode Parquet batch: ");
                out.append(error.as_str());
            },
            DataError::MissingColumn(column) => {
                out.append("missing required column `");
                out.append(column);
                out.append("`");
            },
            DataError::InvalidColumnType(column) => {
                out.append("column `");
                out.append(column);
                out.append("` has an unsupported type");
            },
            DataError::NullValue { column, row } => {
                out.append("column `");
                out.append(column);
                out.append("` is null at row ");
                text::push_numeral(&mut out, *row as u128);
            },
            DataError::InvalidTimestamp { row, value: timestamp } => {
                out.append("date has invalid timestamp ");
                text::push_integer(&mut out, *timestamp);
                out.append(" at row ");
                text::push_numeral(&mut out, *row as u128);
            },
            DataError::InvalidPrice { column, row, .. } => {
                out.append("column `");
                out.append(column);
                out.append("` has invalid price ");
                out.append(value);
                out.append(" at row ");
                text::push_numeral(&mut out, *row as u128);
            },
            DataError::InvalidValue { column, row, .. } => {
                out.append(column);
                out.append(" must be finite at row ");
                text::push_numeral(&mut out, *row as u128);
                out.append(": ");
                out.append(value);
            },
            DataError::InvalidHistoryValue { row } => {
                out.append("open, close and open_interest must be positive/finite at row ");
                text::push_numeral(&mut out, *row as u128);
            },
            DataError::EmptyTail => {
                out.append("history tail must contain at least one bar");
            },
            DataError::NonIncreasingTimestamp { row } => {
                out.append("date must strictly increase; row ");
                text::push_numeral(&mut out, *row as u128);
                out.append(" is out of order");
            },
            DataError::TimeZone => {
                out.append("date must declare the configured time zone");
            },
        }
        assert(out@ =~= self.sentence(value@));
        out
    }
}

/// The values of a column that has to be there.
pub open spec fn required<T>(column: Column<T>, name: &'static str) -> Result<
    Seq<Option<T>>,
    DataError,
> {
    match column {
        Column::Missing => Err(DataError::MissingColumn(name)),
        Column::OtherType => Err(DataError::InvalidColumnType(name)),
        Column::Values(values) => Ok(values@),
    }
}

/// The value of a row that must not be null.
pub open spec fn present<T>(values: Seq<Option<T>>, row: int, name: &'static str) -> Result<
    T,
    DataError,
> {
    match values[row] {
        None => Err(DataError::NullValue { column: name, row: row as usize }),
        Some(value) => Ok(value),
    }
}

/// The timestamp of a row.
pub open spec fn timestamp(dates: Seq<Option<i64>>, row: int) -> Result<u64, DataError> {
    match present(dates, row, "date") {
        Err(error) => Err(error),
        Ok(value) => if value < 0 {
            Err(DataError::InvalidTimestamp { row: row as usize, value })
        } else {
            Ok(value as u64)
        },
    }
}

/// The price of a row: positive and finite.
pub open spec fn priced(values: Seq<Option<Binary64>>, row: int, name: &'static str) -> Result<
    Binary64,
    DataError,
> {
    match present(values, row, name) {
        Err(error) => Err(error),
        Ok(value) => if value.finite() && value.positive() {
            Ok(value)
        } else {
            Err(DataError::InvalidPrice { column: name, row: row as usize, value })
        },
    }
}

/// The finite value of a row.
pub open spec fn measured(values: Seq<Option<Binary64>>, row: int, name: &'static str) -> Result<
    Binary64,
    DataError,
> {
    match present(values, row, name) {
        Err(error) => Err(error),
        Ok(value) => if value.finite() {
            Ok(value)
        } else {
            Err(DataError::InvalidValue { column: name, row: row as usize, value })
        },
    }
}

/// A bar without the checks that its prices have passed.
#[verifier::ext_equal]
pub struct RawBar {
    pub timestamp_ns: u64,
    pub open: Binary64,
    pub close: Binary64,
}

pub open spec fn raw(bars: Seq<Bar>) -> Seq<RawBar> {
    bars.map_values(
        |bar: Bar|
            RawBar { timestamp_ns: bar.timestamp_ns, open: bar.open@, close: bar.close@ },
    )
}

/// The bar of a row.
pub open spec fn row_bar(
    dates: Seq<Option<i64>>,
    opens: Seq<Option<Binary64>>,
    closes: Seq<Option<Binary64>>,
    row: int,
) -> Result<RawBar, DataError> {
    match timestamp(dates, row) {
        Err(error) => Err(error),
        Ok(timestamp_ns) => match priced(opens, row, "open") {
            Err(error) => Err(error),
            Ok(open) => match priced(closes, row, "close") {
                Err(error) => Err(error),
                Ok(close) => Ok(RawBar { timestamp_ns, open, close }),
            },
        },
    }
}

/// The bars of the first rows, or what is wrong with the first of them that is
/// not as it should be.
pub open spec fn row_bars(
    dates: Seq<Option<i64>>,
    opens: Seq<Option<Binary64>>,
    closes: Seq<Option<Binary64>>,
    rows: int,
) -> Result<Seq<RawBar>, DataError>
    decreases rows,
{
    if rows <= 0 {
        Ok(Seq::empty())
    } else {
        match row_bars(dates, opens, closes, rows - 1) {
            Err(error) => Err(error),
            Ok(bars) => match row_bar(dates, opens, closes, rows - 1) {
                Err(error) => Err(error),
                Ok(bar) => Ok(bars.push(bar)),
            },
        }
    }
}

/// The bars of a batch.
pub open spec fn batch_bars(batch: ColumnBatch) -> Result<Seq<RawBar>, DataError> {
    match required(batch.date, "date") {
        Err(error) => Err(error),
        Ok(dates) => match required(batch.open, "open") {
            Err(error) => Err(error),
            Ok(opens) => match required(batch.close, "close") {
                Err(error) => Err(error),
                Ok(closes) => row_bars(dates, opens, closes, batch.rows as int),
            },
        },
    }
}

/// The history bar of a row.
pub open spec fn row_history(
    dates: Seq<Option<i64>>,
    opens: Seq<Option<Binary64>>,
    closes: Seq<Option<Binary64>>,
    interests: Seq<Option<Binary64>>,
    row: int,
) -> Result<HistoryBar, DataError> {
    match timestamp(dates, row) {
        Err(error) => Err(error),
        Ok(timestamp_ns) => match measured(opens, row, "open") {
            Err(error) => Err(error),
            Ok(open) => match measured(closes, row, "close") {
                Err(error) => Err(error),
                Ok(close) => match measured(interests, row, "open_interest") {
                    Err(error) => Err(error),
                    Ok(open_interest) => if !open.positive() || !close.positive()
                        || open_interest.value() < 0 {
                        Err(DataError::InvalidHistoryValue { row: row as usize })
                    } else {
                        Ok(HistoryBar { timestamp_ns, open, close, open_interest })
                    },
                },
            },
        },
    }
}

/// The history bars of the first rows.
pub open spec fn row_histories(
    dates: Seq<Option<i64>>,
    opens: Seq<Option<Binary64>>,
    closes: Seq<Option<Binary64>>,
    interests: Seq<Option<Binary64>>,
    rows: int,
) -> Result<Seq<HistoryBar>, DataError>
    decreases rows,
{
    if rows <= 0 {
        Ok(Seq::empty())
    } else {
        match row_histories(dates, opens, closes, interests, rows - 1) {
            Err(error) => Err(error),
            Ok(bars) => match row_history(dates, opens, closes, interests, rows - 1) {
                Err(error) => Err(error),
                Ok(bar) => Ok(bars.push(bar)),
            },
        }
    }
}

/// The history bars of a batch.
pub open spec fn batch_history(batch: ColumnBatch) -> Result<Seq<HistoryBar>, DataError> {
    match required(batch.date, "date") {
        Err(error) => Err(error),
        Ok(dates) => match required(batch.open, "open") {
            Err(error) => Err(error),
            Ok(opens) => match required(batch.close, "close") {
                Err(error) => Err(error),
                Ok(closes) => match required(batch.open_interest, "open_interest") {
                    Err(error) => Err(error),
                    Ok(interests) => row_histories(
                        dates,
                        opens,
                        closes,
                        interests,
                        batch.rows as int,
                    ),
                },
            },
        },
    }
}

fn required_column<'a, T>(column: &'a Column<T>, name: &'static str) -> (r: Result<
    &'a Vec<Option<T>>,
    DataError,
>)
    ensures
        match required(*column, name) {
            Ok(values) => r matches Ok(found) && found@ == values && *column == Column::Values(
                *found,
            ),
            Err(error) => r == Err::<&'a Vec<Option<T>>, DataError>(error),
        },
{
    match column {
        Column::Missing => Err(DataError::MissingColumn(name)),
        Column::OtherType => Err(DataError::InvalidColumnType(name)),
        Column::Values(values) => Ok(values),
    }
}

fn required_value<T: Copy>(values: &Vec<Option<T>>, row: usize, name: &'static str) -> (r: Result<
    T,
    DataError,
>)
    requires
        row < values@.len(),
    ensures
        r == present(values@, row as int, name),
{
    match values[row] {
        None => Err(DataError::NullValue { column: name, row }),
        Some(value) => Ok(value),
    }
}

fn timestamp_ns(dates: &Vec<Option<i64>>, row: usize) -> (r: Result<u64, DataError>)
    requires
        row < dates@.len(),
    ensures
        r == timestamp(dates@, row as int),
{
    let value: i64 = required_value(dates, row, "date")?;
    if value < 0 {
        Err(DataError::InvalidTimestamp { row, value })
    } else {
        Ok(value as u64)
    }
}

fn price(values: &Vec<Option<Binary64>>, row: usize, column: &'static str) -> (r: Result<
    Price,
    DataError,
>)
    requires
        row < values@.len(),
    ensures
        match priced(values@, row as int, column) {
            Ok(value) => r matches Ok(price) && price@ == value,
            Err(error) => r == Err::<Price, DataError>(error),
        },
{
    let value: Binary64 = required_value(values, row, column)?;
    match Price::new(value) {
        Some(price) => Ok(price),
        None => Err(DataError::InvalidPrice { column, row, value }),
    }
}

fn finite(values: &Vec<Option<Binary64>>, row: usize, column: &'static str) -> (r: Result<
    Binary64,
    DataError,
>)
    requires
        row < values@.len(),
    ensures
        r == measured(values@, row as int, column),
{
    let value: Binary64 = required_value(values, row, column)?;
    if value.is_finite() {
        Ok(value)
    } else {
        Err(DataError::InvalidValue { column, row, value })
    }
}

/// Appends the bars of a batch.
pub fn append_batch(bars: &mut Vec<Bar>, batch: &ColumnBatch) -> (r: Result<(), DataError>)
    requires
        batch.well_formed(),
    ensures
        old(bars)@.is_prefix_of(final(bars)@),
        match batch_bars(*batch) {
            Ok(new) => r == Ok::<(), DataError>(()) && raw(final(bars)@) == raw(old(bars)@) + new,
            Err(error) => r == Err::<(), DataError>(error),
        },
        r is Ok ==> final(bars)@.len() == old(bars)@.len() + batch.rows && forall|row: int|
            0 <= row < batch.rows ==> #[trigger] rows::is_row(
                *batch,
                row,
                final(bars)@[old(bars)@.len() + row],
            ),
{
    let dates: &Vec<Option<i64>> = required_column(&batch.date, "date")?;
    let opens: &Vec<Option<Binary64>> = required_column(&batch.open, "open")?;
    let closes: &Vec<Option<Binary64>> = required_column(&batch.close, "close")?;
    let ghost mut new: Seq<RawBar> = Seq::empty();
    let mut row: usize = 0;
    assert(raw(bars@) =~= raw(old(bars)@) + new);
    while row < batch.rows
        invariant
            row <= batch.rows,
            dates@.len() == batch.rows,
            opens@.len() == batch.rows,
            closes@.len() == batch.rows,
            batch_bars(*batch) == row_bars(dates@, opens@, closes@, batch.rows as int),
            row_bars(dates@, opens@, closes@, row as int) == Ok::<Seq<RawBar>, DataError>(new),
            raw(bars@) == raw(old(bars)@) + new,
            old(bars)@.is_prefix_of(bars@),
        decreases batch.rows - row,
    {
        let ghost before = bars@;
        let timestamp_ns: u64 = match timestamp_ns(dates, row) {
            Ok(timestamp_ns) => timestamp_ns,
            Err(error) => {
                proof {
                    lemma_bars_fail(dates@, opens@, closes@, row + 1, batch.rows as int);
                }
                return Err(error);
            },
        };
        let open: Price = match price(opens, row, "open") {
            Ok(open) => open,
            Err(error) => {
                proof {
                    lemma_bars_fail(dates@, opens@, closes@, row + 1, batch.rows as int);
                }
                return Err(error);
            },
        };
        let close: Price = match price(closes, row, "close") {
            Ok(close) => close,
            Err(error) => {
                proof {
                    lemma_bars_fail(dates@, opens@, closes@, row + 1, batch.rows as int);
                }
                return Err(error);
            },
        };
        bars.push(Bar::new(timestamp_ns, open, close));
        proof {
            let bar = RawBar { timestamp_ns, open: open@, close: close@ };
            new = new.push(bar);
            assert(raw(bars@) =~= raw(before).push(bar));
            assert(raw(bars@) =~= raw(old(bars)@) + new);
        }
        row = row + 1;
    }
    proof {
        assert(raw(bars@).len() == bars@.len() && raw(old(bars)@).len() == old(bars)@.len());
        lemma_bars_count(dates@, opens@, closes@, batch.rows as int);
        assert forall|row: int| 0 <= row < batch.rows implies #[trigger] rows::is_row(
            *batch,
            row,
            bars@[old(bars)@.len() + row],
        ) by {
            rows::law_rows_become_bars(old(bars)@, bars@, *batch, row);
        }
    }
    Ok(())
}

proof fn lemma_bars_count(
    dates: Seq<Option<i64>>,
    opens: Seq<Option<Binary64>>,
    closes: Seq<Option<Binary64>>,
    rows: int,
)
    requires
        rows >= 0,
    ensures
        row_bars(dates, opens, closes, rows) matches Ok(bars) ==> bars.len() == rows,
    decreases rows,
{
    if rows > 0 {
        lemma_bars_count(dates, opens, closes, rows - 1);
    }
}

proof fn lemma_bars_fail(
    dates: Seq<Option<i64>>,
    opens: Seq<Option<Binary64>>,
    closes: Seq<Option<Binary64>>,
    count: int,
    rows: int,
)
    requires
        0 <= count <= rows,
        row_bars(dates, opens, closes, count) is Err,
    ensures
        row_bars(dates, opens, closes, rows) == row_bars(dates, opens, closes, count),
    decreases rows,
{
    if count < rows {
        lemma_bars_fail(dates, opens, closes, count, rows - 1);
    }
}

proof fn lemma_histories_fail(
    dates: Seq<Option<i64>>,
    opens: Seq<Option<Binary64>>,
    closes: Seq<Option<Binary64>>,
    interests: Seq<Option<Binary64>>,
    count: int,
    rows: int,
)
    requires
        0 <= count <= rows,
        row_histories(dates, opens, closes, interests, count) is Err,
    ensures
        row_histories(dates, opens, closes, interests, rows) == row_histories(
            dates,
            opens,
            closes,
            interests,
            count,
        ),
    decreases rows,
{
    if count < rows {
        lemma_histories_fail(dates, opens, closes, interests, count, rows - 1);
    }
}

fn history_row(
    dates: &Vec<Option<i64>>,
    opens: &Vec<Option<Binary64>>,
    closes: &Vec<Option<Binary64>>,
    interests: &Vec<Option<Binary64>>,
    row: usize,
) -> (r: Result<HistoryBar, DataError>)
    requires
        row < dates@.len(),
        row < opens@.len(),
        row < closes@.len(),
        row < interests@.len(),
    ensures
        r == row_history(dates@, opens@, closes@, interests@, row as int),
{
    let timestamp_ns: u64 = timestamp_ns(dates, row)?;
    let open: Binary64 = finite(opens, row, "open")?;
    let close: Binary64 = finite(closes, row, "close")?;
    let open_interest: Binary64 = finite(interests, row, "open_interest")?;
    if !open.is_positive() || !close.is_positive() || open_interest.is_below_zero() {
        return Err(DataError::InvalidHistoryValue { row });
    }
    Ok(HistoryBar { timestamp_ns, open, close, open_interest })
}

/// Appends the history bars of a batch.
pub fn append_history_batch(bars: &mut Vec<HistoryBar>, batch: &ColumnBatch) -> (r: Result<
    (),
    DataError,
>)
    requires
        batch.well_formed(),
    ensures
        old(bars)@.is_prefix_of(final(bars)@),
        match batch_history(*batch) {
            Ok(new) => r == Ok::<(), DataError>(()) && final(bars)@ == old(bars)@ + new,
            Err(error) => r == Err::<(), DataError>(error),
        },
        r is Ok ==> forall|row: int|
            0 <= row < batch.rows ==> #[trigger] rows::is_history_row(
                *batch,
                row,
                final(bars)@[old(bars)@.len() + row],
            ),
{
    let dates: &Vec<Option<i64>> = required_column(&batch.date, "date")?;
    let opens: &Vec<Option<Binary64>> = required_column(&batch.open, "open")?;
    let closes: &Vec<Option<Binary64>> = required_column(&batch.close, "close")?;
    let interests: &Vec<Option<Binary64>> = required_column(&batch.open_interest, "open_interest")?;
    let ghost mut new: Seq<HistoryBar> = Seq::empty();
    let mut row: usize = 0;
    assert(bars@ =~= old(bars)@ + new);
    while row < batch.rows
        invariant
            row <= batch.rows,
            dates@.len() == batch.rows,
            opens@.len() == batch.rows,
            closes@.len() == batch.rows,
            interests@.len() == batch.rows,
            batch_history(*batch) == row_histories(
                dates@,
                opens@,
                closes@,
                interests@,
                batch.rows as int,
            ),
            row_histories(dates@, opens@, closes@, interests@, row as int) == Ok::<
                Seq<HistoryBar>,
                DataError,
            >(new),
            bars@ == old(bars)@ + new,
        decreases batch.rows - row,
    {
        match history_row(dates, opens, closes, interests, row) {
            Ok(bar) => {
                bars.push(bar);
                proof {
                    new = new.push(bar);
                    assert(bars@ =~= old(bars)@ + new);
                }
            },
            Err(error) => {
                proof {
                    lemma_histories_fail(
                        dates@,
                        opens@,
                        closes@,
                        interests@,
                        row + 1,
                        batch.rows as int,
                    );
                }
                return Err(error);
            },
        }
        row = row + 1;
    }
    proof {
        assert forall|row: int| 0 <= row < batch.rows implies #[trigger] rows::is_history_row(
            *batch,
            row,
            bars@[old(bars)@.len() + row],
        ) by {
            rows::law_rows_become_history(*batch, row);
        }
    }
    Ok(())
}

/// The first row whose timestamp does not lie after the one before.
pub open spec fn first_out_of_order(times: Seq<u64>) -> Option<int>
    decreases times.len(),
{
    if times.len() <= 1 {
        None
    } else {
        match first_out_of_order(times.drop_last()) {
            Some(row) => Some(row),
            None => if times[times.len() - 2] >= times.last() {
                Some(times.len() - 1)
            } else {
                None
            },
        }
    }
}

proof fn lemma_out_of_order(times: Seq<u64>, count: int)
    requires
        0 <= count <= times.len(),
        first_out_of_order(times.take(count)) is Some,
    ensures
        first_out_of_order(times) == first_out_of_order(times.take(count)),
    decreases times.len(),
{
    if count == times.len() {
        assert(times.take(count) =~= times);
    } else {
        assert(times.drop_last().take(count) =~= times.take(count));
        lemma_out_of_order(times.drop_last(), count);
    }
}

/// Where no row is out of order, every timestamp lies after all before it.
pub proof fn law_ordered_rows_increase(times: Seq<u64>, i: int, j: int)
    requires
        first_out_of_order(times) is None,
        0 <= i < j < times.len(),
    ensures
        times[i] < times[j],
    decreases times.len(),
{
    if j < times.len() - 1 {
        law_ordered_rows_increase(times.drop_last(), i, j);
    } else if i < j - 1 {
        law_ordered_rows_increase(times.drop_last(), i, j - 1);
    }
}

fn check_order(times: &Vec<u64>) -> (r: Result<(), DataError>)
    ensures
        match first_out_of_order(times@) {
            Some(row) => r == Err::<(), DataError>(
                DataError::NonIncreasingTimestamp { row: row as usize },
            ),
            None => r == Ok::<(), DataError>(()),
        },
{
    let mut row: usize = 1;
    while row < times.len()
        invariant
            1 <= row,
            row <= times@.len() || times@.len() == 0,
            times@.len() > 0 ==> first_out_of_order(times@.take(row as int)) is None,
        decreases times@.len() - row,
    {
        proof {
            assert(times@.take(row + 1).drop_last() =~= times@.take(row as int));
        }
        if times[row - 1] >= times[row] {
            proof {
                lemma_out_of_order(times@, row + 1);
            }
            return Err(DataError::NonIncreasingTimestamp { row });
        }
        row = row + 1;
    }
    assert(times@.take(times@.len() as int) =~= times@);
    Ok(())
}

pub open spec fn bar_times(bars: Seq<Bar>) -> Seq<u64> {
    bars.map_values(|bar: Bar| bar.timestamp_ns)
}

pub open spec fn history_times(bars: Seq<HistoryBar>) -> Seq<u64> {
    bars.map_values(|bar: HistoryBar| bar.timestamp_ns)
}

/// Fails where a bar does not lie after the one before.
pub fn validate_timestamps(bars: &[Bar]) -> (r: Result<(), DataError>)
    ensures
        match first_out_of_order(bar_times(bars@)) {
            Some(row) => r == Err::<(), DataError>(
                DataError::NonIncreasingTimestamp { row: row as usize },
            ),
            None => r == Ok::<(), DataError>(()),
        },
{
    let mut times: Vec<u64> = Vec::new();
    let mut i: usize = 0;
    while i < bars.len()
        invariant
            i <= bars@.len(),
            times@ == bar_times(bars@).take(i as int),
        decreases bars@.len() - i,
    {
        times.push(bars[i].timestamp_ns);
        assert(times@ =~= bar_times(bars@).take(i + 1));
        i = i + 1;
    }
    assert(times@ =~= bar_times(bars@));
    check_order(&times)
}

/// Fails where a bar does not lie after the one before.
pub fn validate_history_timestamps(bars: &[HistoryBar]) -> (r: Result<(), DataError>)
    ensures
        match first_out_of_order(history_times(bars@)) {
            Some(row) => r == Err::<(), DataError>(
                DataError::NonIncreasingTimestamp { row: row as usize },
            ),
            None => r == Ok::<(), DataError>(()),
        },
{
    let mut times: Vec<u64> = Vec::new();
    let mut i: usize = 0;
    while i < bars.len()
        invariant
            i <= bars@.len(),
            times@ == history_times(bars@).take(i as int),
        decreases bars@.len() - i,
    {
        times.push(bars[i].timestamp_ns);
        assert(times@ =~= history_times(bars@).take(i + 1));
        i = i + 1;
    }
    assert(times@ =~= history_times(bars@));
    check_order(&times)
}

/// Fails where a tail of no bars is asked for.
pub fn validate_tail(maximum: usize) -> (r: Result<(), DataError>)
    ensures
        r == (if maximum == 0 {
            Err::<(), DataError>(DataError::EmptyTail)
        } else {
            Ok(())
        }),
{
    if maximum == 0 {
        Err(DataError::EmptyTail)
    } else {
        Ok(())
    }
}

/// The newest bars of a history, as many as there are up to a number.
pub open spec fn newest(bars: Seq<HistoryBar>, maximum: int) -> Seq<HistoryBar> {
    if bars.len() <= maximum {
        bars
    } else {
        bars.skip(bars.len() - maximum)
    }
}

/// The newest bars of a history that is in order.
pub fn history_tail(bars: Vec<HistoryBar>, maximum: usize) -> (r: Result<
    Vec<HistoryBar>,
    DataError,
>)
    ensures
        if maximum == 0 {
            r == Err::<Vec<HistoryBar>, DataError>(DataError::EmptyTail)
        } else {
            match first_out_of_order(history_times(bars@)) {
                Some(row) => r == Err::<Vec<HistoryBar>, DataError>(
                    DataError::NonIncreasingTimestamp { row: row as usize },
                ),
                None => r matches Ok(tail) && tail@ == newest(bars@, maximum as int),
            }
        },
{
    validate_tail(maximum)?;
    validate_history_timestamps(bars.as_slice())?;
    let mut bars: Vec<HistoryBar> = bars;
    let ghost all = bars@;
    if bars.len() <= maximum {
        return Ok(bars);
    }
    let start: usize = bars.len() - maximum;
    let tail: Vec<HistoryBar> = bars.split_off(start);
    assert(tail@ =~= all.skip(all.len() - maximum));
    Ok(tail)
}

/// The instant that a timestamp stands for, in a column with or without a
/// declared time zone.
pub open spec fn instant(
    zone: Option<Seq<char>>,
    interpretation: TimestampInterpretation,
    timestamp_ns: u64,
    row: int,
) -> Result<u64, DataError> {
    match (interpretation, zone) {
        (TimestampInterpretation::DeclaredAsiaShanghai, Some(name)) => if name
            == "Asia/Shanghai"@ {
            Ok(timestamp_ns)
        } else {
            Err(DataError::TimeZone)
        },
        (TimestampInterpretation::NaiveAsiaShanghaiWallClock, None) => if timestamp_ns
            < fixed_capital::daily::SHANGHAI_OFFSET_NS {
            Err(
                DataError::InvalidTimestamp {
                    row: row as usize,
                    value: timestamp_ns as i64,
                },
            )
        } else {
            Ok((timestamp_ns - fixed_capital::daily::SHANGHAI_OFFSET_NS) as u64)
        },
        _ => Err(DataError::TimeZone),
    }
}

/// The instant that a timestamp stands for. The time zone is never guessed: a
/// column has to declare `Asia/Shanghai`, or to declare nothing where its wall
/// clock is said to be that of Shanghai.
pub fn interpret_timestamp(
    zone: Option<&str>,
    interpretation: TimestampInterpretation,
    timestamp_ns: u64,
    row: usize,
) -> (r: Result<u64, DataError>)
    requires
        timestamp_ns <= i64::MAX,
    ensures
        r == instant(
            zone_text(zone),
            interpretation,
            timestamp_ns,
            row as int,
        ),
{
    match (interpretation, zone) {
        (TimestampInterpretation::DeclaredAsiaShanghai, Some(name)) => if text::same(
            name,
            "Asia/Shanghai",
        ) {
            Ok(timestamp_ns)
        } else {
            Err(DataError::TimeZone)
        },
        (TimestampInterpretation::NaiveAsiaShanghaiWallClock, None) => if timestamp_ns
            < fixed_capital::daily::SHANGHAI_OFFSET_NS {
            Err(DataError::InvalidTimestamp { row, value: timestamp_ns as i64 })
        } else {
            Ok(timestamp_ns - fixed_capital::daily::SHANGHAI_OFFSET_NS)
        },
        _ => Err(DataError::TimeZone),
    }
}

/// The eight columns of complete bars.
#[verifier::ext_equal]
pub struct CompleteColumns {
    pub date: Seq<Option<i64>>,
    pub open: Seq<Option<Binary64>>,
    pub high: Seq<Option<Binary64>>,
    pub low: Seq<Option<Binary64>>,
    pub close: Seq<Option<Binary64>>,
    pub volume: Seq<Option<Binary64>>,
    pub money: Seq<Option<Binary64>>,
    pub open_interest: Seq<Option<Binary64>>,
}

/// The columns of a batch, or the first that is not as it should be.
pub open spec fn complete_columns(batch: ColumnBatch) -> Result<CompleteColumns, DataError> {
    match (
        required(batch.date, "date"),
        required(batch.open, "open"),
        required(batch.high, "high"),
        required(batch.low, "low"),
        required(batch.close, "close"),
        required(batch.volume, "volume"),
        required(batch.money, "money"),
        required(batch.open_interest, "open_interest"),
    ) {
        (Err(error), _, _, _, _, _, _, _) => Err(error),
        (_, Err(error), _, _, _, _, _, _) => Err(error),
        (_, _, Err(error), _, _, _, _, _) => Err(error),
        (_, _, _, Err(error), _, _, _, _) => Err(error),
        (_, _, _, _, Err(error), _, _, _) => Err(error),
        (_, _, _, _, _, Err(error), _, _) => Err(error),
        (_, _, _, _, _, _, Err(error), _) => Err(error),
        (_, _, _, _, _, _, _, Err(error)) => Err(error),
        (
            Ok(date),
            Ok(open),
            Ok(high),
            Ok(low),
            Ok(close),
            Ok(volume),
            Ok(money),
            Ok(open_interest),
        ) => Ok(
            CompleteColumns { date, open, high, low, close, volume, money, open_interest },
        ),
    }
}

/// The complete bar of a row: positive prices, and nothing negative.
pub open spec fn row_complete(
    columns: CompleteColumns,
    zone: Option<Seq<char>>,
    interpretation: TimestampInterpretation,
    row: int,
) -> Result<fixed_capital::HistoryBar, DataError> {
    match timestamp(columns.date, row) {
        Err(error) => Err(error),
        Ok(stamp) => match instant(zone, interpretation, stamp, row) {
            Err(error) => Err(error),
            Ok(timestamp_ns) => match (
                measured(columns.open, row, "open"),
                measured(columns.high, row, "high"),
                measured(columns.low, row, "low"),
                measured(columns.close, row, "close"),
                measured(columns.volume, row, "volume"),
                measured(columns.money, row, "money"),
                measured(columns.open_interest, row, "open_interest"),
            ) {
                (Err(error), _, _, _, _, _, _) => Err(error),
                (_, Err(error), _, _, _, _, _) => Err(error),
                (_, _, Err(error), _, _, _, _) => Err(error),
                (_, _, _, Err(error), _, _, _) => Err(error),
                (_, _, _, _, Err(error), _, _) => Err(error),
                (_, _, _, _, _, Err(error), _) => Err(error),
                (_, _, _, _, _, _, Err(error)) => Err(error),
                (
                    Ok(open),
                    Ok(high),
                    Ok(low),
                    Ok(close),
                    Ok(volume),
                    Ok(money),
                    Ok(open_interest),
                ) => if !open.positive() || !high.positive() || !low.positive()
                    || !close.positive() || volume.value() < 0 || money.value() < 0
                    || open_interest.value() < 0 {
                    Err(DataError::InvalidHistoryValue { row: row as usize })
                } else {
                    Ok(
                        fixed_capital::HistoryBar {
                            timestamp_ns,
                            open,
                            high,
                            low,
                            close,
                            volume,
                            money,
                            open_interest,
                        },
                    )
                },
            },
        },
    }
}

/// The complete bars of the first rows.
pub open spec fn complete_bars(
    columns: CompleteColumns,
    zone: Option<Seq<char>>,
    interpretation: TimestampInterpretation,
    rows: int,
) -> Result<Seq<fixed_capital::HistoryBar>, DataError>
    decreases rows,
{
    if rows <= 0 {
        Ok(Seq::empty())
    } else {
        match complete_bars(columns, zone, interpretation, rows - 1) {
            Err(error) => Err(error),
            Ok(bars) => match row_complete(columns, zone, interpretation, rows - 1) {
                Err(error) => Err(error),
                Ok(bar) => Ok(bars.push(bar)),
            },
        }
    }
}

proof fn lemma_complete_fail(
    columns: CompleteColumns,
    zone: Option<Seq<char>>,
    interpretation: TimestampInterpretation,
    count: int,
    rows: int,
)
    requires
        0 <= count <= rows,
        complete_bars(columns, zone, interpretation, count) is Err,
    ensures
        complete_bars(columns, zone, interpretation, rows) == complete_bars(
            columns,
            zone,
            interpretation,
            count,
        ),
    decreases rows,
{
    if count < rows {
        lemma_complete_fail(columns, zone, interpretation, count, rows - 1);
    }
}

/// References to the eight columns of complete bars.
struct Columns<'a> {
    date: &'a Vec<Option<i64>>,
    open: &'a Vec<Option<Binary64>>,
    high: &'a Vec<Option<Binary64>>,
    low: &'a Vec<Option<Binary64>>,
    close: &'a Vec<Option<Binary64>>,
    volume: &'a Vec<Option<Binary64>>,
    money: &'a Vec<Option<Binary64>>,
    open_interest: &'a Vec<Option<Binary64>>,
}

impl<'a> Columns<'a> {
    spec fn values(self) -> CompleteColumns {
        CompleteColumns {
            date: self.date@,
            open: self.open@,
            high: self.high@,
            low: self.low@,
            close: self.close@,
            volume: self.volume@,
            money: self.money@,
            open_interest: self.open_interest@,
        }
    }

    spec fn reach(self, rows: int) -> bool {
        &&& self.date@.len() == rows
        &&& self.open@.len() == rows
        &&& self.high@.len() == rows
        &&& self.low@.len() == rows
        &&& self.close@.len() == rows
        &&& self.volume@.len() == rows
        &&& self.money@.len() == rows
        &&& self.open_interest@.len() == rows
    }

    fn of(batch: &'a ColumnBatch) -> (r: Result<Columns<'a>, DataError>)
        requires
            batch.well_formed(),
        ensures
            match complete_columns(*batch) {
                Ok(columns) => r matches Ok(found) && found.values() == columns && found.reach(
                    batch.rows as int,
                ),
                Err(error) => r == Err::<Columns<'a>, DataError>(error),
            },
    {
        Ok(
            Columns {
                date: required_column(&batch.date, "date")?,
                open: required_column(&batch.open, "open")?,
                high: required_column(&batch.high, "high")?,
                low: required_column(&batch.low, "low")?,
                close: required_column(&batch.close, "close")?,
                volume: required_column(&batch.volume, "volume")?,
                money: required_column(&batch.money, "money")?,
                open_interest: required_column(&batch.open_interest, "open_interest")?,
            },
        )
    }

    fn bar(
        &self,
        zone: Option<&str>,
        interpretation: TimestampInterpretation,
        row: usize,
        rows: usize,
    ) -> (r: Result<fixed_capital::HistoryBar, DataError>)
        requires
            self.reach(rows as int),
            row < rows,
        ensures
            r == row_complete(self.values(), zone_text(zone), interpretation, row as int),
    {
        let stamp: u64 = timestamp_ns(self.date, row)?;
        let timestamp_ns: u64 = interpret_timestamp(zone, interpretation, stamp, row)?;
        let open: Binary64 = finite(self.open, row, "open")?;
        let high: Binary64 = finite(self.high, row, "high")?;
        let low: Binary64 = finite(self.low, row, "low")?;
        let close: Binary64 = finite(self.close, row, "close")?;
        let volume: Binary64 = finite(self.volume, row, "volume")?;
        let money: Binary64 = finite(self.money, row, "money")?;
        let open_interest: Binary64 = finite(self.open_interest, row, "open_interest")?;
        if !open.is_positive() || !high.is_positive() || !low.is_positive() || !close.is_positive()
            || volume.is_below_zero() || money.is_below_zero() || open_interest.is_below_zero() {
            return Err(DataError::InvalidHistoryValue { row });
        }
        Ok(
            fixed_capital::HistoryBar {
                timestamp_ns,
                open,
                high,
                low,
                close,
                volume,
                money,
                open_interest,
            },
        )
    }
}

/// A time zone by its name.
pub open spec fn zone_text(zone: Option<&str>) -> Option<Seq<char>> {
    match zone {
        Some(name) => Some(name@),
        None => None,
    }
}

/// Appends the complete bars of a batch.
pub fn append_complete_batch(
    bars: &mut Vec<fixed_capital::HistoryBar>,
    batch: &ColumnBatch,
    zone: Option<&str>,
    interpretation: TimestampInterpretation,
) -> (r: Result<(), DataError>)
    requires
        batch.well_formed(),
    ensures
        old(bars)@.is_prefix_of(final(bars)@),
        match complete_columns(*batch) {
            Err(error) => r == Err::<(), DataError>(error),
            Ok(columns) => match complete_bars(
                columns,
                zone_text(zone),
                interpretation,
                batch.rows as int,
            ) {
                Ok(new) => r == Ok::<(), DataError>(()) && final(bars)@ == old(bars)@ + new,
                Err(error) => r == Err::<(), DataError>(error),
            },
        },
        r is Ok ==> forall|row: int|
            0 <= row < batch.rows ==> #[trigger] rows::is_complete_row(
                *batch,
                row,
                final(bars)@[old(bars)@.len() + row],
            ),
{
    let columns: Columns<'_> = Columns::of(batch)?;
    let ghost values = columns.values();
    let ghost name = zone_text(zone);
    let ghost mut new: Seq<fixed_capital::HistoryBar> = Seq::empty();
    let mut row: usize = 0;
    assert(bars@ =~= old(bars)@ + new);
    while row < batch.rows
        invariant
            row <= batch.rows,
            columns.reach(batch.rows as int),
            values == columns.values(),
            name == zone_text(zone),
            complete_columns(*batch) == Ok::<CompleteColumns, DataError>(values),
            complete_bars(values, name, interpretation, row as int) == Ok::<
                Seq<fixed_capital::HistoryBar>,
                DataError,
            >(new),
            bars@ == old(bars)@ + new,
        decreases batch.rows - row,
    {
        match columns.bar(zone, interpretation, row, batch.rows) {
            Ok(bar) => {
                bars.push(bar);
                proof {
                    new = new.push(bar);
                    assert(bars@ =~= old(bars)@ + new);
                }
            },
            Err(error) => {
                proof {
                    lemma_complete_fail(
                        values,
                        name,
                        interpretation,
                        row + 1,
                        batch.rows as int,
                    );
                }
                return Err(error);
            },
        }
        row = row + 1;
    }
    proof {
        assert forall|row: int| 0 <= row < batch.rows implies #[trigger] rows::is_complete_row(
            *batch,
            row,
            bars@[old(bars)@.len() + row],
        ) by {
            rows::law_rows_become_complete_bars(*batch, name, interpretation, row);
        }
    }
    Ok(())
}

} // verus!
