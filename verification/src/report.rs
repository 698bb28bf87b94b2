//! The report of a backtest, line by line.

use crate::binary64::Binary64;
use crate::decimal;
use crate::live::ctpd;
use crate::ordered::TextMap;
use crate::text;
use vstd::prelude::*;

verus! {

/// How a portfolio has done.
#[derive(Clone, Debug)]
pub struct Performance {
    pub initial_equity: Binary64,
    pub final_equity: Binary64,
    pub cumulative_return: Binary64,
    pub annualized_return: Option<Binary64>,
    pub annualized_sharpe: Option<Binary64>,
    pub max_drawdown: Binary64,
    pub return_drawdown_ratio: Option<Binary64>,
    pub daily_observations: usize,
}

/// What a backtest comes to.
#[derive(Clone, Debug)]
pub struct BacktestReport {
    pub bars: usize,
    pub data_size_bytes: u64,
    pub runtime_ms: u64,
    pub fills: usize,
    /// Orders of the final bar of an instrument, which no bar fills.
    pub unfilled_orders: usize,
    pub round_trips: usize,
    pub fees_paid: Binary64,
    pub slippage_paid: Binary64,
    pub ending_positions: TextMap<i64>,
    pub performance: Performance,
}

/// A line with a count.
pub open spec fn count_line(label: Seq<char>, count: int) -> Seq<char> {
    label + ": "@ + text::numeral(count as nat)
}

/// A line with a number to six decimal places.
pub open spec fn number_line(label: Seq<char>, value: Binary64) -> Seq<char> {
    label + ": "@ + decimal::fixed(value, 6)
}

/// A line with a number that there may not be.
pub open spec fn optional_line(label: Seq<char>, value: Option<Binary64>) -> Seq<char> {
    match value {
        Some(value) => number_line(label, value),
        None => label + ": n/a"@,
    }
}

/// The lines of the ending positions, by instrument.
pub open spec fn position_lines(keys: Seq<String>, values: Seq<i64>, count: int) -> Seq<Seq<char>>
    decreases count,
{
    if count <= 0 {
        Seq::empty()
    } else {
        position_lines(keys, values, count - 1).push(
            "ending_position."@ + keys[count - 1]@ + ": "@ + text::integer(
                values[count - 1] as int,
            ),
        )
    }
}

impl BacktestReport {
    /// The lines before those of the positions.
    pub open spec fn first_lines(self, peak_rss_bytes: u64) -> Seq<Seq<char>> {
        seq![
            count_line("bars"@, self.bars as int),
            count_line("data_size_bytes"@, self.data_size_bytes as int),
            count_line("runtime_ms"@, self.runtime_ms as int),
            count_line("peak_rss_bytes"@, peak_rss_bytes as int),
            count_line("fills"@, self.fills as int),
            count_line("unfilled_orders"@, self.unfilled_orders as int),
            count_line("round_trips"@, self.round_trips as int),
            number_line("fees_paid"@, self.fees_paid),
            number_line("slippage_paid"@, self.slippage_paid),
        ]
    }

    /// The lines behind those of the positions.
    pub open spec fn last_lines(self) -> Seq<Seq<char>> {
        let value = self.performance;
        seq![
            number_line("initial_equity"@, value.initial_equity),
            number_line("final_equity"@, value.final_equity),
            number_line("cumulative_return"@, value.cumulative_return),
            optional_line("annualized_return"@, value.annualized_return),
            optional_line("annualized_sharpe"@, value.annualized_sharpe),
            number_line("max_drawdown"@, value.max_drawdown),
            optional_line("return_drawdown_ratio"@, value.return_drawdown_ratio),
            count_line("daily_observations"@, value.daily_observations as int),
        ]
    }

    /// The lines of the report.
    pub fn lines(&self, peak_rss_bytes: u64) -> (r: Vec<String>)
        requires
            self.ending_positions.well_formed(),
        ensures
            ctpd::contents(r@) == self.first_lines(peak_rss_bytes) + position_lines(
                self.ending_positions.keys(),
                self.ending_positions.values(),
                self.ending_positions.keys().len() as int,
            ) + self.last_lines(),
    {
        let mut out: Vec<String> = vec![
            counted("bars", self.bars as u64),
            counted("data_size_bytes", self.data_size_bytes),
            counted("runtime_ms", self.runtime_ms),
            counted("peak_rss_bytes", peak_rss_bytes),
            counted("fills", self.fills as u64),
            counted("unfilled_orders", self.unfilled_orders as u64),
            counted("round_trips", self.round_trips as u64),
            numbered("fees_paid", self.fees_paid),
            numbered("slippage_paid", self.slippage_paid),
        ];
        let ghost first = self.first_lines(peak_rss_bytes);
        let ghost keys = self.ending_positions.keys();
        let ghost values = self.ending_positions.values();
        assert(ctpd::contents(out@) =~= first);
        assert(first + position_lines(keys, values, 0) =~= first);
        let mut i: usize = 0;
        proof {
            self.ending_positions.lemma_increasing();
        }
        while i < self.ending_positions.len()
            invariant
                self.ending_positions.well_formed(),
                keys == self.ending_positions.keys(),
                values == self.ending_positions.values(),
                keys.len() == values.len(),
                i <= keys.len(),
                ctpd::contents(out@) == first + position_lines(keys, values, i as int),
            decreases keys.len() - i,
        {
            let ghost before = out@;
            let mut line: String = "ending_position.".to_owned();
            line.append(self.ending_positions.key(i).as_str());
            line.append(": ");
            text::push_integer(&mut line, *self.ending_positions.value(i));
            let ghost written = line@;
            out.push(line);
            assert(ctpd::contents(out@) =~= ctpd::contents(before).push(written));
            assert(ctpd::contents(out@) =~= first + position_lines(keys, values, i + 1));
            i = i + 1;
        }
        let value: &Performance = &self.performance;
        let mut rest: Vec<String> = vec![
            numbered("initial_equity", value.initial_equity),
            numbered("final_equity", value.final_equity),
            numbered("cumulative_return", value.cumulative_return),
            optional("annualized_return", value.annualized_return),
            optional("annualized_sharpe", value.annualized_sharpe),
            numbered("max_drawdown", value.max_drawdown),
            optional("return_drawdown_ratio", value.return_drawdown_ratio),
            counted("daily_observations", value.daily_observations as u64),
        ];
        let ghost all = ctpd::contents(out@);
        let ghost tail = rest@;
        assert(ctpd::contents(rest@) =~= self.last_lines());
        out.append(&mut rest);
        assert(ctpd::contents(out@) =~= all + ctpd::contents(tail));
        out
    }
}

fn counted(label: &str, count: u64) -> (r: String)
    ensures
        r@ == count_line(label@, count as int),
{
    let mut line: String = label.to_owned();
    line.append(": ");
    text::push_numeral(&mut line, count as u128);
    line
}

fn numbered(label: &str, value: Binary64) -> (r: String)
    ensures
        r@ == number_line(label@, value),
{
    let mut line: String = label.to_owned();
    line.append(": ");
    decimal::push_fixed(&mut line, value, 6);
    line
}

fn optional(label: &str, value: Option<Binary64>) -> (r: String)
    ensures
        r@ == optional_line(label@, value),
{
    match value {
        Some(value) => numbered(label, value),
        None => {
            let mut line: String = label.to_owned();
            line.append(": n/a");
            line
        },
    }
}

} // verus!
