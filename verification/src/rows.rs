//! What the rows of a batch become: the bar of a row holds the cells of that row,
//! each from the column that bears its name, and a batch is refused at its first
//! row that is not as it should be.

use crate::binary64::Binary64;
use crate::data;
use crate::data::{Column, ColumnBatch, CompleteColumns, DataError, HistoryBar};
use crate::fixed_capital;
use crate::fixed_capital::TimestampInterpretation;
use crate::market::Bar;
use vstd::prelude::*;

verus! {

/// Whether a column holds a value in a row.
pub open spec fn holds<T>(column: Column<T>, row: int, value: T) -> bool {
    column matches Column::Values(values) && 0 <= row < values@.len() && values@[row] == Some(
        value,
    )
}

/// Whether a column holds nothing in a row.
pub open spec fn is_null<T>(column: Column<T>, row: int) -> bool {
    column matches Column::Values(values) && 0 <= row < values@.len() && values@[row] is None
}

/// Whether a bar is what stands in a row.
pub open spec fn is_row(batch: ColumnBatch, row: int, bar: Bar) -> bool {
    &&& bar.timestamp_ns <= i64::MAX && holds(batch.date, row, bar.timestamp_ns as i64)
    &&& holds(batch.open, row, bar.open@)
    &&& holds(batch.close, row, bar.close@)
}

/// Whether a price stands in a row.
pub open spec fn is_price(column: Column<Binary64>, row: int) -> bool {
    exists|value: Binary64| #[trigger]
        holds(column, row, value) && value.finite() && value.value() > 0
}

/// Whether a time stands in a row.
pub open spec fn is_time(column: Column<i64>, row: int) -> bool {
    exists|value: i64| #[trigger] holds(column, row, value) && value >= 0
}

/// Whether a row has all that a bar is made of.
pub open spec fn is_sound(batch: ColumnBatch, row: int) -> bool {
    is_time(batch.date, row) && is_price(batch.open, row) && is_price(batch.close, row)
}

/// A bar that an appended batch has added is the row of the batch at its place:
/// its timestamp, open and close are the cells of that row in the columns of those
/// names. Bars that were there stay.
pub proof fn law_rows_become_bars(before: Seq<Bar>, after: Seq<Bar>, batch: ColumnBatch, row: int)
    requires
        batch.well_formed(),
        data::batch_bars(batch) matches Ok(new) && data::raw(after) == data::raw(before) + new,
        0 <= row < batch.rows,
    ensures
        after.len() == before.len() + batch.rows,
        is_row(batch, row, after[before.len() + row]),
{
    let new = data::batch_bars(batch)->Ok_0;
    let dates = data::required(batch.date, "date")->Ok_0;
    let opens = data::required(batch.open, "open")->Ok_0;
    let closes = data::required(batch.close, "close")->Ok_0;
    lemma_bars(dates, opens, closes, batch.rows as int, row);
    assert(data::raw(after).len() == after.len());
    assert(data::raw(before).len() == before.len());
    assert(data::raw(after)[before.len() + row] == new[row]);
}

proof fn lemma_bars(
    dates: Seq<Option<i64>>,
    opens: Seq<Option<Binary64>>,
    closes: Seq<Option<Binary64>>,
    rows: int,
    row: int,
)
    requires
        0 <= row < rows,
        data::row_bars(dates, opens, closes, rows) is Ok,
    ensures
        ({
            let bars = data::row_bars(dates, opens, closes, rows)->Ok_0;
            &&& bars.len() == rows
            &&& bars[row].timestamp_ns <= i64::MAX
            &&& dates[row] == Some(bars[row].timestamp_ns as i64)
            &&& opens[row] == Some(bars[row].open)
            &&& closes[row] == Some(bars[row].close)
        }),
    decreases rows,
{
    if row < rows - 1 {
        lemma_bars(dates, opens, closes, rows - 1, row);
    } else if rows > 1 {
        lemma_bars(dates, opens, closes, rows - 1, 0);
    }
}

/// Whether an error tells what is wrong with a row.
pub open spec fn is_fault(batch: ColumnBatch, row: int, error: DataError) -> bool {
    match error {
        DataError::NullValue { column, row: at } => at == row && (column == "date" && is_null(
            batch.date,
            row,
        ) || column == "open" && is_null(batch.open, row) || column == "close" && is_null(
            batch.close,
            row,
        )),
        DataError::InvalidTimestamp { row: at, value } => at == row && value < 0 && holds(
            batch.date,
            row,
            value,
        ),
        DataError::InvalidPrice { column, row: at, value } => at == row && !(value.finite()
            && value.value() > 0) && (column == "open" && holds(batch.open, row, value) || column
            == "close" && holds(batch.close, row, value)),
        _ => false,
    }
}

/// A batch with its three columns gives bars exactly where every row has a time,
/// an open and a close; else it is refused for its first row that lacks one, and
/// the error tells what stands there.
pub proof fn law_the_first_bad_row_is_refused(batch: ColumnBatch)
    requires
        batch.well_formed(),
        batch.date is Values,
        batch.open is Values,
        batch.close is Values,
    ensures
        match data::batch_bars(batch) {
            Ok(_) => forall|row: int| 0 <= row < batch.rows ==> #[trigger] is_sound(batch, row),
            Err(error) => exists|row: int| #[trigger]
                is_fault(batch, row, error) && 0 <= row < batch.rows && !is_sound(batch, row)
                    && forall|earlier: int|
                    0 <= earlier < row ==> #[trigger] is_sound(batch, earlier),
        },
{
    lemma_first_bad(batch, batch.rows as int);
}

proof fn lemma_first_bad(batch: ColumnBatch, rows: int)
    requires
        batch.well_formed(),
        batch.date is Values,
        batch.open is Values,
        batch.close is Values,
        0 <= rows <= batch.rows,
    ensures
        match data::row_bars(
            batch.date->Values_0@,
            batch.open->Values_0@,
            batch.close->Values_0@,
            rows,
        ) {
            Ok(_) => forall|row: int| 0 <= row < rows ==> #[trigger] is_sound(batch, row),
            Err(error) => exists|row: int| #[trigger]
                is_fault(batch, row, error) && 0 <= row < rows && !is_sound(batch, row)
                    && forall|earlier: int|
                    0 <= earlier < row ==> #[trigger] is_sound(batch, earlier),
        },
    decreases rows,
{
    if rows > 0 {
        lemma_first_bad(batch, rows - 1);
        let dates = batch.date->Values_0@;
        let opens = batch.open->Values_0@;
        let closes = batch.close->Values_0@;
        let row = rows - 1;
        if data::row_bars(dates, opens, closes, row) is Ok {
            match data::row_bar(dates, opens, closes, row) {
                Ok(bar) => {
                    assert(holds(batch.date, row, bar.timestamp_ns as i64));
                    assert(holds(batch.open, row, bar.open));
                    assert(holds(batch.close, row, bar.close));
                    assert(is_sound(batch, row));
                },
                Err(error) => {
                    assert(is_fault(batch, row, error));
                    assert(!is_sound(batch, row));
                },
            }
        }
    }
}

/// Whether a history bar is what stands in a row.
pub open spec fn is_history_row(batch: ColumnBatch, row: int, bar: HistoryBar) -> bool {
    &&& bar.timestamp_ns <= i64::MAX && holds(batch.date, row, bar.timestamp_ns as i64)
    &&& holds(batch.open, row, bar.open) && bar.open.finite() && bar.open.value() > 0
    &&& holds(batch.close, row, bar.close) && bar.close.finite() && bar.close.value() > 0
    &&& holds(batch.open_interest, row, bar.open_interest) && bar.open_interest.finite()
        && bar.open_interest.value() >= 0
}

/// The history bar of a row holds the cells of that row, each from the column that
/// bears its name, and each within its bounds.
pub proof fn law_rows_become_history(batch: ColumnBatch, row: int)
    requires
        batch.well_formed(),
        data::batch_history(batch) is Ok,
        0 <= row < batch.rows,
    ensures
        data::batch_history(batch)->Ok_0.len() == batch.rows,
        is_history_row(batch, row, data::batch_history(batch)->Ok_0[row]),
{
    lemma_histories(
        data::required(batch.date, "date")->Ok_0,
        data::required(batch.open, "open")->Ok_0,
        data::required(batch.close, "close")->Ok_0,
        data::required(batch.open_interest, "open_interest")->Ok_0,
        batch.rows as int,
        row,
    );
}

proof fn lemma_histories(
    dates: Seq<Option<i64>>,
    opens: Seq<Option<Binary64>>,
    closes: Seq<Option<Binary64>>,
    interests: Seq<Option<Binary64>>,
    rows: int,
    row: int,
)
    requires
        0 <= row < rows,
        data::row_histories(dates, opens, closes, interests, rows) is Ok,
    ensures
        ({
            let bars = data::row_histories(dates, opens, closes, interests, rows)->Ok_0;
            &&& bars.len() == rows
            &&& bars[row].timestamp_ns <= i64::MAX
            &&& dates[row] == Some(bars[row].timestamp_ns as i64)
            &&& opens[row] == Some(bars[row].open)
            &&& closes[row] == Some(bars[row].close)
            &&& interests[row] == Some(bars[row].open_interest)
            &&& bars[row].open.finite() && bars[row].open.value() > 0
            &&& bars[row].close.finite() && bars[row].close.value() > 0
            &&& bars[row].open_interest.finite() && bars[row].open_interest.value() >= 0
        }),
    decreases rows,
{
    if row < rows - 1 {
        lemma_histories(dates, opens, closes, interests, rows - 1, row);
    } else if rows > 1 {
        lemma_histories(dates, opens, closes, interests, rows - 1, 0);
    }
}

/// Whether a finite number that is not negative stands in a row.
pub open spec fn is_amount(column: Column<Binary64>, row: int) -> bool {
    exists|value: Binary64| #[trigger]
        holds(column, row, value) && value.finite() && value.value() >= 0
}

/// Whether a row has all that a history bar is made of.
pub open spec fn is_sound_history(batch: ColumnBatch, row: int) -> bool {
    &&& is_time(batch.date, row)
    &&& is_price(batch.open, row)
    &&& is_price(batch.close, row)
    &&& is_amount(batch.open_interest, row)
}

/// A batch with its four columns gives a history exactly where every row has a time, an
/// open, a close and an open interest.
pub proof fn law_sound_rows_become_history(batch: ColumnBatch)
    requires
        batch.well_formed(),
        batch.date is Values,
        batch.open is Values,
        batch.close is Values,
        batch.open_interest is Values,
    ensures
        data::batch_history(batch) is Ok <==> forall|row: int|
            0 <= row < batch.rows ==> #[trigger] is_sound_history(batch, row),
{
    lemma_sound_history(batch, batch.rows as int);
}

proof fn lemma_sound_history(batch: ColumnBatch, rows: int)
    requires
        batch.well_formed(),
        batch.date is Values,
        batch.open is Values,
        batch.close is Values,
        batch.open_interest is Values,
        0 <= rows <= batch.rows,
    ensures
        data::row_histories(
            batch.date->Values_0@,
            batch.open->Values_0@,
            batch.close->Values_0@,
            batch.open_interest->Values_0@,
            rows,
        ) is Ok <==> forall|row: int|
            0 <= row < rows ==> #[trigger] is_sound_history(batch, row),
    decreases rows,
{
    if rows > 0 {
        lemma_sound_history(batch, rows - 1);
        let row = rows - 1;
        let found = data::row_history(
            batch.date->Values_0@,
            batch.open->Values_0@,
            batch.close->Values_0@,
            batch.open_interest->Values_0@,
            row,
        );
        if let Ok(bar) = found {
            assert(holds(batch.date, row, bar.timestamp_ns as i64));
            assert(holds(batch.open, row, bar.open));
            assert(holds(batch.close, row, bar.close));
            assert(holds(batch.open_interest, row, bar.open_interest));
            assert(is_sound_history(batch, row));
        } else {
            assert(!is_sound_history(batch, row));
        }
    }
}

/// Whether a complete bar is what stands in a row, its time aside.
pub open spec fn is_complete_row(
    batch: ColumnBatch,
    row: int,
    bar: fixed_capital::HistoryBar,
) -> bool {
    &&& holds(batch.open, row, bar.open) && bar.open.finite() && bar.open.value() > 0
    &&& holds(batch.high, row, bar.high) && bar.high.finite() && bar.high.value() > 0
    &&& holds(batch.low, row, bar.low) && bar.low.finite() && bar.low.value() > 0
    &&& holds(batch.close, row, bar.close) && bar.close.finite() && bar.close.value() > 0
    &&& holds(batch.volume, row, bar.volume) && bar.volume.finite() && bar.volume.value() >= 0
    &&& holds(batch.money, row, bar.money) && bar.money.finite() && bar.money.value() >= 0
    &&& holds(batch.open_interest, row, bar.open_interest) && bar.open_interest.finite()
        && bar.open_interest.value() >= 0
}

/// The complete bar of a row holds the cells of that row, each from the column that
/// bears its name. Its time is the cell itself where the column declares the zone
/// of Shanghai, and eight hours before the cell where the column declares none and
/// holds the wall clock of Shanghai; any other zone is refused.
pub proof fn law_rows_become_complete_bars(
    batch: ColumnBatch,
    zone: Option<Seq<char>>,
    interpretation: TimestampInterpretation,
    row: int,
)
    requires
        batch.well_formed(),
        data::complete_columns(batch) is Ok,
        data::complete_bars(
            data::complete_columns(batch)->Ok_0,
            zone,
            interpretation,
            batch.rows as int,
        ) is Ok,
        0 <= row < batch.rows,
    ensures
        ({
            let bars = data::complete_bars(
                data::complete_columns(batch)->Ok_0,
                zone,
                interpretation,
                batch.rows as int,
            )->Ok_0;
            &&& bars.len() == batch.rows
            &&& is_complete_row(batch, row, bars[row])
            &&& match interpretation {
                TimestampInterpretation::DeclaredAsiaShanghai => zone == Some("Asia/Shanghai"@)
                    && bars[row].timestamp_ns <= i64::MAX && holds(
                    batch.date,
                    row,
                    bars[row].timestamp_ns as i64,
                ),
                TimestampInterpretation::NaiveAsiaShanghaiWallClock => zone is None
                    && bars[row].timestamp_ns + 28_800_000_000_000 <= i64::MAX && holds(
                    batch.date,
                    row,
                    (bars[row].timestamp_ns + 28_800_000_000_000) as i64,
                ),
            }
        }),
{
    lemma_completes(
        data::complete_columns(batch)->Ok_0,
        zone,
        interpretation,
        batch.rows as int,
        row,
    );
}

proof fn lemma_completes(
    columns: CompleteColumns,
    zone: Option<Seq<char>>,
    interpretation: TimestampInterpretation,
    rows: int,
    row: int,
)
    requires
        0 <= row < rows,
        data::complete_bars(columns, zone, interpretation, rows) is Ok,
    ensures
        ({
            let bars = data::complete_bars(columns, zone, interpretation, rows)->Ok_0;
            &&& bars.len() == rows
            &&& data::row_complete(columns, zone, interpretation, row) == Ok::<
                fixed_capital::HistoryBar,
                DataError,
            >(bars[row])
        }),
    decreases rows,
{
    if row < rows - 1 {
        lemma_completes(columns, zone, interpretation, rows - 1, row);
    } else if rows > 1 {
        lemma_completes(columns, zone, interpretation, rows - 1, 0);
    }
}

/// Whether a row has all that a complete bar is made of, its time aside.
pub open spec fn is_sound_bar(batch: ColumnBatch, row: int) -> bool {
    &&& is_price(batch.open, row) && is_price(batch.high, row)
    &&& is_price(batch.low, row) && is_price(batch.close, row)
    &&& is_amount(batch.volume, row) && is_amount(batch.money, row)
    &&& is_amount(batch.open_interest, row)
}

/// A row that has all its cells becomes a complete bar where its column declares the zone
/// of Shanghai, and where it declares none and its clock is said to be that of Shanghai and
/// shows no less than eight hours. Else it is refused.
pub proof fn law_sound_rows_become_complete_bars(
    batch: ColumnBatch,
    zone: Option<Seq<char>>,
    interpretation: TimestampInterpretation,
    row: int,
)
    requires
        batch.well_formed(),
        data::complete_columns(batch) is Ok,
        0 <= row < batch.rows,
    ensures
        data::row_complete(data::complete_columns(batch)->Ok_0, zone, interpretation, row) is Ok
            <==> is_sound_bar(batch, row) && match interpretation {
            TimestampInterpretation::DeclaredAsiaShanghai => zone == Some("Asia/Shanghai"@)
                && is_time(batch.date, row),
            TimestampInterpretation::NaiveAsiaShanghaiWallClock => zone is None && exists|
                value: i64,
            | #[trigger]
                holds(batch.date, row, value) && value >= 28_800_000_000_000,
        },
{
    let columns = data::complete_columns(batch)->Ok_0;
    let found = data::row_complete(columns, zone, interpretation, row);
    if let Ok(bar) = found {
        assert(holds(batch.open, row, bar.open));
        assert(holds(batch.high, row, bar.high));
        assert(holds(batch.low, row, bar.low));
        assert(holds(batch.close, row, bar.close));
        assert(holds(batch.volume, row, bar.volume));
        assert(holds(batch.money, row, bar.money));
        assert(holds(batch.open_interest, row, bar.open_interest));
        assert(holds(batch.date, row, columns.date[row]->Some_0));
    }
}

/// Timestamps pass exactly where each lies after the one before; else the row that
/// is named is the first that does not.
pub proof fn law_the_first_row_out_of_order_is_named(times: Seq<u64>)
    ensures
        match data::first_out_of_order(times) {
            None => forall|i: int| 0 < i < times.len() ==> times[i - 1] < #[trigger] times[i],
            Some(row) => {
                &&& 0 < row < times.len()
                &&& times[row] <= times[row - 1]
                &&& forall|i: int| 0 < i < row ==> times[i - 1] < #[trigger] times[i]
            },
        },
    decreases times.len(),
{
    if times.len() > 1 {
        let fewer = times.drop_last();
        law_the_first_row_out_of_order_is_named(fewer);
        match data::first_out_of_order(fewer) {
            Some(row) => {
                assert(fewer[row] == times[row] && fewer[row - 1] == times[row - 1]);
                assert forall|i: int| 0 < i < row implies times[i - 1] < #[trigger] times[i] by {
                    assert(fewer[i - 1] < fewer[i]);
                }
            },
            None => {
                assert forall|i: int| 0 < i < fewer.len() implies times[i - 1]
                    < #[trigger] times[i] by {
                    assert(fewer[i - 1] < fewer[i]);
                }
            },
        }
    }
}

/// The tail of a history is its end: as many bars as asked for, or all where there are
/// fewer, and the last of them is the last of the history.
pub proof fn law_tails_are_the_newest(bars: Seq<HistoryBar>, maximum: int, i: int)
    requires
        maximum > 0,
    ensures
        ({
            let tail = data::newest(bars, maximum);
            &&& tail.len() <= maximum
            &&& tail.len() == bars.len() || tail.len() == maximum
            &&& 0 <= i < tail.len() ==> tail[tail.len() - 1 - i] == bars[bars.len() - 1 - i]
        }),
{
}

} // verus!
