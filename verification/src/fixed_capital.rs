//! Causal, component-level fixed-capital research replay.
//!
//! Every component exposure is kept apart, its fixed-capital return is computed
//! on its own, and canonical twelve-decimal returns are summed on an explicit
//! evaluation calendar.

pub use crate::calendar::TradingDay;
use crate::binary64::Binary64;
use crate::calendar;
use crate::text;
use vstd::prelude::*;

pub use self::daily::DailyReturn;
pub use self::performance::FixedCapitalPerformance;
pub use self::run::{run_fixed_capital_history, run_fixed_capital_history_inner, FixedCapitalResult};

pub mod booking;
pub mod conduct;
pub mod daily;
pub mod exits;
pub mod fixed_point;
pub mod growth;
pub mod laws;
pub mod performance;
pub mod profits;
pub mod replay;
pub mod report;
pub mod run;
pub mod timeline;

verus! {

/// How the timestamps of a bar file are to be read.
#[derive(Clone, Copy, Debug, PartialEq, Eq, Structural)]
pub enum TimestampInterpretation {
    /// Instants of a column that declares the time zone `Asia/Shanghai`.
    DeclaredAsiaShanghai,
    /// Wall-clock times of Shanghai in a column without a time zone.
    NaiveAsiaShanghaiWallClock,
}

#[derive(Clone, Debug)]
pub struct FixedCapitalInstrument {
    pub id: String,
    pub data: String,
    pub timestamp_interpretation: TimestampInterpretation,
}

#[derive(Clone, Debug)]
pub struct FixedCapitalConfig {
    pub instruments: Vec<FixedCapitalInstrument>,
    pub components: Vec<String>,
    pub evaluation_days: Vec<TradingDay>,
}

/// A complete bar.
#[derive(Clone, Copy, Debug, PartialEq, Eq, Structural)]
pub struct HistoryBar {
    pub timestamp_ns: u64,
    pub open: Binary64,
    pub high: Binary64,
    pub low: Binary64,
    pub close: Binary64,
    pub volume: Binary64,
    pub money: Binary64,
    pub open_interest: Binary64,
}

#[derive(Clone, Debug)]
pub struct InstrumentHistory {
    pub instrument: String,
    pub bars: Vec<HistoryBar>,
}

#[derive(Clone, Copy, Debug)]
pub struct TimestampBar<'a> {
    pub instrument: &'a str,
    pub bar: &'a HistoryBar,
}

#[derive(Clone, Copy, Debug)]
pub struct FixedCapitalContext<'a> {
    pub timestamp_ns: u64,
    pub bars: &'a [TimestampBar<'a>],
}

/// A bar and the instrument that it belongs to.
pub struct Quote {
    pub instrument: Seq<char>,
    pub bar: HistoryBar,
}

impl<'a> TimestampBar<'a> {
    pub open spec fn quote(self) -> Quote {
        Quote { instrument: self.instrument@, bar: *self.bar }
    }
}

/// The bars of a batch.
pub open spec fn quotes(bars: Seq<TimestampBar>) -> Seq<Quote> {
    bars.map_values(|value: TimestampBar| value.quote())
}

/// Whether a batch holds bars of one time, in the order of their instruments.
pub open spec fn orderly(batch: Seq<Quote>, timestamp_ns: u64) -> bool {
    &&& forall|i: int|
        0 <= i < batch.len() ==> (#[trigger] batch[i]).bar.timestamp_ns == timestamp_ns
    &&& forall|i: int, j: int|
        0 <= i < j < batch.len() ==> text::before(
            (#[trigger] batch[i]).instrument,
            (#[trigger] batch[j]).instrument,
        )
}

/// What decides on exposures: asked once at each time, with the bars of every
/// instrument that has one.
pub trait FixedCapitalStrategy: Sized {
    /// How a strategy may answer, and what becomes of it: what holds of every
    /// call of `on_timestamp`. A strategy that says nothing of itself may do
    /// anything.
    open spec fn answers(
        before: Self,
        timestamp_ns: u64,
        shown: Seq<Quote>,
        after: Self,
        given: Result<Seq<ExposureOrder>, Seq<char>>,
    ) -> bool {
        true
    }

    fn on_timestamp(&mut self, context: FixedCapitalContext<'_>) -> (r: Result<
        Vec<ExposureOrder>,
        String,
    >)
        requires
            context.bars@.len() > 0,
            orderly(quotes(context.bars@), context.timestamp_ns),
        ensures
            Self::answers(
                *old(self),
                context.timestamp_ns,
                quotes(context.bars@),
                *final(self),
                replay::answer(r),
            ),
    ;
}

#[derive(Clone, Copy, Debug, PartialEq, Eq, Structural)]
pub enum ExposureSide {
    Long,
    Short,
}

#[derive(Clone, Copy, Debug, PartialEq, Eq, Structural)]
pub enum ScheduledFill {
    Open,
    Close,
}

#[derive(Clone, Copy, Debug, PartialEq, Eq, Structural)]
pub enum ExitPlan {
    At { timestamp_ns: u64, fill: ScheduledFill },
    StopOrAt { stop_price: Binary64, timestamp_ns: u64, fill: ScheduledFill },
}

impl ExitPlan {
    /// When and at which price the plan exits at the latest.
    pub open spec fn schedule(self) -> (u64, ScheduledFill) {
        match self {
            ExitPlan::At { timestamp_ns, fill } => (timestamp_ns, fill),
            ExitPlan::StopOrAt { timestamp_ns, fill, .. } => (timestamp_ns, fill),
        }
    }

    pub open spec fn stop_level(self) -> Option<Binary64> {
        match self {
            ExitPlan::At { .. } => None,
            ExitPlan::StopOrAt { stop_price, .. } => Some(stop_price),
        }
    }

    pub fn scheduled(self) -> (r: (u64, ScheduledFill))
        ensures
            r == self.schedule(),
    {
        match self {
            ExitPlan::At { timestamp_ns, fill } => (timestamp_ns, fill),
            ExitPlan::StopOrAt { timestamp_ns, fill, .. } => (timestamp_ns, fill),
        }
    }

    pub fn stop(self) -> (r: Option<Binary64>)
        ensures
            r == self.stop_level(),
    {
        match self {
            ExitPlan::At { .. } => None,
            ExitPlan::StopOrAt { stop_price, .. } => Some(stop_price),
        }
    }
}

#[derive(Debug, PartialEq, Eq)]
pub struct ExposureOrder {
    pub id: String,
    pub component: String,
    pub instrument: String,
    pub setup: String,
    pub side: ExposureSide,
    pub component_scale: Binary64,
    pub instrument_weight: Binary64,
    pub exit: ExitPlan,
    pub cost_fraction: Binary64,
}

impl Clone for ExposureOrder {
    fn clone(&self) -> (r: Self)
        ensures
            r == *self,
    {
        ExposureOrder {
            id: self.id.clone(),
            component: self.component.clone(),
            instrument: self.instrument.clone(),
            setup: self.setup.clone(),
            side: self.side,
            component_scale: self.component_scale,
            instrument_weight: self.instrument_weight,
            exit: self.exit,
            cost_fraction: self.cost_fraction,
        }
    }
}

#[derive(Clone, Copy, Debug, PartialEq, Eq, Structural)]
pub enum ExitReason {
    ScheduledOpen,
    ScheduledClose,
    Stop,
}

impl ExitReason {
    pub open spec fn name(self) -> Seq<char> {
        match self {
            ExitReason::ScheduledOpen => "scheduled_open"@,
            ExitReason::ScheduledClose => "scheduled_close"@,
            ExitReason::Stop => "stop"@,
        }
    }

    pub fn to_text(&self) -> (r: String)
        ensures
            r@ == self.name(),
    {
        match self {
            ExitReason::ScheduledOpen => "scheduled_open".to_owned(),
            ExitReason::ScheduledClose => "scheduled_close".to_owned(),
            ExitReason::Stop => "stop".to_owned(),
        }
    }
}

#[derive(Clone, Debug, PartialEq, Eq)]
pub struct ComponentTrade {
    pub id: String,
    pub component: String,
    pub instrument: String,
    pub setup: String,
    pub signal_timestamp_ns: u64,
    pub entry_timestamp_ns: u64,
    pub exit_timestamp_ns: u64,
    pub side: ExposureSide,
    pub entry_price: Binary64,
    pub exit_price: Binary64,
    pub exit_reason: ExitReason,
    pub cost_fraction: Binary64,
    pub component_scale: Binary64,
    pub instrument_weight: Binary64,
    pub net_return_units: i64,
    pub weighted_return_units: i64,
}

impl ComponentTrade {
    pub fn net_return(&self) -> (r: Binary64)
        ensures
            r == fixed_point::amount(self.net_return_units),
    {
        fixed_point::from_fixed(self.net_return_units)
    }

    pub fn weighted_return(&self) -> (r: Binary64)
        ensures
            r == fixed_point::amount(self.weighted_return_units),
    {
        fixed_point::from_fixed(self.weighted_return_units)
    }
}

#[derive(Clone, Debug, PartialEq, Eq)]
pub struct CensoredExposure {
    pub id: String,
    pub component: String,
    pub instrument: String,
    pub signal_timestamp_ns: u64,
    pub entry_timestamp_ns: Option<u64>,
}

#[derive(Debug)]
pub enum FixedCapitalError {
    InvalidConfig(&'static str),
    ReadData(String),
    Data(String),
    EmptyBars,
    NonIncreasingBars(String),
    Strategy(String),
    InvalidOrder(String),
    DuplicateExposure(String),
    UnknownInstrument(String),
    UnknownComponent(String),
    ExitNotAfterSignal(String),
    ExitNotAfterEntry(String),
    InvalidStop(String),
    InactiveExposure(String),
    MissingScheduledBar { instrument: String, timestamp_ns: u64 },
    TimestampRange,
    ExitOutsideCalendar(TradingDay),
    FixedPointOverflow,
    WriteOutput(String),
    Csv(String),
    Json(String),
}

/// What went wrong, with the texts that an error carries.
pub enum Problem {
    InvalidConfig(Seq<char>),
    ReadData(Seq<char>),
    Data(Seq<char>),
    EmptyBars,
    NonIncreasingBars(Seq<char>),
    Strategy(Seq<char>),
    InvalidOrder(Seq<char>),
    DuplicateExposure(Seq<char>),
    UnknownInstrument(Seq<char>),
    UnknownComponent(Seq<char>),
    ExitNotAfterSignal(Seq<char>),
    ExitNotAfterEntry(Seq<char>),
    InvalidStop(Seq<char>),
    InactiveExposure(Seq<char>),
    MissingScheduledBar { instrument: Seq<char>, timestamp_ns: u64 },
    TimestampRange,
    ExitOutsideCalendar((int, int, int)),
    FixedPointOverflow,
    WriteOutput(Seq<char>),
    Csv(Seq<char>),
    Json(Seq<char>),
}

impl View for FixedCapitalError {
    type V = Problem;

    open spec fn view(&self) -> Problem {
        match self {
            FixedCapitalError::InvalidConfig(message) => Problem::InvalidConfig(message@),
            FixedCapitalError::ReadData(error) => Problem::ReadData(error@),
            FixedCapitalError::Data(error) => Problem::Data(error@),
            FixedCapitalError::EmptyBars => Problem::EmptyBars,
            FixedCapitalError::NonIncreasingBars(instrument) => Problem::NonIncreasingBars(
                instrument@,
            ),
            FixedCapitalError::Strategy(error) => Problem::Strategy(error@),
            FixedCapitalError::InvalidOrder(message) => Problem::InvalidOrder(message@),
            FixedCapitalError::DuplicateExposure(id) => Problem::DuplicateExposure(id@),
            FixedCapitalError::UnknownInstrument(instrument) => Problem::UnknownInstrument(
                instrument@,
            ),
            FixedCapitalError::UnknownComponent(component) => Problem::UnknownComponent(component@),
            FixedCapitalError::ExitNotAfterSignal(id) => Problem::ExitNotAfterSignal(id@),
            FixedCapitalError::ExitNotAfterEntry(id) => Problem::ExitNotAfterEntry(id@),
            FixedCapitalError::InvalidStop(id) => Problem::InvalidStop(id@),
            FixedCapitalError::InactiveExposure(id) => Problem::InactiveExposure(id@),
            FixedCapitalError::MissingScheduledBar { instrument, timestamp_ns } => {
                Problem::MissingScheduledBar {
                    instrument: instrument@,
                    timestamp_ns: *timestamp_ns,
                }
            },
            FixedCapitalError::TimestampRange => Problem::TimestampRange,
            FixedCapitalError::ExitOutsideCalendar(day) => Problem::ExitOutsideCalendar(day@),
            FixedCapitalError::FixedPointOverflow => Problem::FixedPointOverflow,
            FixedCapitalError::WriteOutput(error) => Problem::WriteOutput(error@),
            FixedCapitalError::Csv(error) => Problem::Csv(error@),
            FixedCapitalError::Json(error) => Problem::Json(error@),
        }
    }
}

impl Problem {
    /// The sentence that reports the problem.
    pub open spec fn sentence(self) -> Seq<char> {
        match self {
            Problem::InvalidConfig(message) => message,
            Problem::ReadData(error) => "cannot read data metadata: "@ + error,
            Problem::Data(error) => "cannot read bars: "@ + error,
            Problem::EmptyBars => "fixed-capital replay requires at least one bar"@,
            Problem::NonIncreasingBars(instrument) => "bars must strictly increase for "@
                + instrument,
            Problem::Strategy(error) => "strategy failed: "@ + error,
            Problem::InvalidOrder(message) => "invalid exposure order: "@ + message,
            Problem::DuplicateExposure(id) => "duplicate exposure id `"@ + id + "`"@,
            Problem::UnknownInstrument(instrument) => "unknown instrument `"@ + instrument + "`"@,
            Problem::UnknownComponent(component) => "unregistered component `"@ + component + "`"@,
            Problem::ExitNotAfterSignal(id) => "exposure `"@ + id
                + "` exits no later than its signal"@,
            Problem::ExitNotAfterEntry(id) => "exposure `"@ + id
                + "` exits no later than its entry"@,
            Problem::InvalidStop(id) => "exposure `"@ + id
                + "` has an invalid or non-adverse stop"@,
            Problem::InactiveExposure(id) => "exposure `"@ + id + "` is not active"@,
            Problem::MissingScheduledBar { instrument, timestamp_ns } => "scheduled "@ + instrument
                + " bar is missing at "@ + text::numeral(timestamp_ns as nat),
            Problem::TimestampRange => "timestamp is outside the supported calendar range"@,
            Problem::ExitOutsideCalendar(day) => {
                "completed exposure exits outside evaluation calendar on "@ + calendar::day_text(
                    day,
                )
            },
            Problem::FixedPointOverflow => "canonical twelve-decimal value overflows"@,
            Problem::WriteOutput(error) => "cannot write fixed-capital output: "@ + error,
            Problem::Csv(error) => "cannot encode fixed-capital CSV: "@ + error,
            Problem::Json(error) => "cannot encode fixed-capital metrics: "@ + error,
        }
    }
}

/// Three texts in a row.
fn joined(first: &str, second: &str, third: &str) -> (r: String)
    ensures
        r@ == first@ + second@ + third@,
{
    let mut out: String = first.to_owned();
    out.append(second);
    out.append(third);
    out
}

impl FixedCapitalError {
    pub fn to_text(&self) -> (r: String)
        ensures
            r@ == self@.sentence(),
    {
        proof {
            reveal_strlit("");
        }
        let out: String = match self {
            FixedCapitalError::InvalidConfig(message) => joined(message, "", ""),
            FixedCapitalError::ReadData(error) => joined("cannot read data metadata: ", error, ""),
            FixedCapitalError::Data(error) => joined("cannot read bars: ", error, ""),
            FixedCapitalError::EmptyBars => "fixed-capital replay requires at least one bar".to_owned(),
            FixedCapitalError::NonIncreasingBars(instrument) => joined(
                "bars must strictly increase for ",
                instrument,
                "",
            ),
            FixedCapitalError::Strategy(error) => joined("strategy failed: ", error, ""),
            FixedCapitalError::InvalidOrder(message) => joined(
                "invalid exposure order: ",
                message,
                "",
            ),
            FixedCapitalError::DuplicateExposure(id) => joined("duplicate exposure id `", id, "`"),
            FixedCapitalError::UnknownInstrument(instrument) => joined(
                "unknown instrument `",
                instrument,
                "`",
            ),
            FixedCapitalError::UnknownComponent(component) => joined(
                "unregistered component `",
                component,
                "`",
            ),
            FixedCapitalError::ExitNotAfterSignal(id) => joined(
                "exposure `",
                id,
                "` exits no later than its signal",
            ),
            FixedCapitalError::ExitNotAfterEntry(id) => joined(
                "exposure `",
                id,
                "` exits no later than its entry",
            ),
            FixedCapitalError::InvalidStop(id) => joined(
                "exposure `",
                id,
                "` has an invalid or non-adverse stop",
            ),
            FixedCapitalError::InactiveExposure(id) => joined("exposure `", id, "` is not active"),
            FixedCapitalError::MissingScheduledBar { instrument, timestamp_ns } => {
                let mut out: String = joined("scheduled ", instrument, " bar is missing at ");
                text::push_numeral(&mut out, *timestamp_ns as u128);
                out
            },
            FixedCapitalError::TimestampRange => {
                "timestamp is outside the supported calendar range".to_owned()
            },
            FixedCapitalError::ExitOutsideCalendar(day) => joined(
                "completed exposure exits outside evaluation calendar on ",
                day.to_text().as_str(),
                "",
            ),
            FixedCapitalError::FixedPointOverflow => {
                "canonical twelve-decimal value overflows".to_owned()
            },
            FixedCapitalError::WriteOutput(error) => joined(
                "cannot write fixed-capital output: ",
                error,
                "",
            ),
            FixedCapitalError::Csv(error) => joined("cannot encode fixed-capital CSV: ", error, ""),
            FixedCapitalError::Json(error) => joined(
                "cannot encode fixed-capital metrics: ",
                error,
                "",
            ),
        };
        assert(out@ =~= self@.sentence());
        out
    }
}

} // verus!
