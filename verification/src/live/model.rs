//! The causal intraday model of one continuous-series leg.
//!
//! A signal is looked for when a one-minute bar completes. The first one of a
//! day is entered at the open of the next bar and left at the open of the bar
//! that stands twenty bars after the signal.

use crate::binary64::Binary64;
use crate::calendar;
use crate::calendar::{TimeOfDay, TradingDay};
use crate::data::HistoryBar;
use crate::ordered;
use crate::ordered::TextMap;
use crate::text;
use std::time::{SystemTime, UNIX_EPOCH};
use vstd::prelude::*;

verus! {

pub const MIN_COMPLETED_ROWS: usize = 60;

pub const EXIT_OFFSET_FROM_SIGNAL: usize = 20;

pub const NANOSECONDS_PER_MINUTE: u64 = 60_000_000_000;

/// What the model of one leg is configured with.
#[derive(Clone, Debug)]
pub struct InstrumentConfig {
    pub symbol: String,
    pub ctpd_instrument_id: String,
    pub parquet: String,
    pub target_contracts: i64,
    pub contract_multiplier: Binary64,
    pub session_bar_count: usize,
    pub last_executable_signal_time: String,
}

/// A tick of the feed. `action_day`, rather than the trading day of the
/// exchange's accounts, is the boundary between days.
#[derive(Debug)]
pub struct CtpdTick {
    pub instrument_id: String,
    pub exchange_id: String,
    pub trading_day: String,
    pub action_day: String,
    pub update_time: String,
    pub update_millisec: i32,
    pub last_price: Binary64,
    pub open_interest: Binary64,
}

impl Clone for CtpdTick {
    fn clone(&self) -> (r: Self)
        ensures
            r == *self,
    {
        CtpdTick {
            instrument_id: self.instrument_id.clone(),
            exchange_id: self.exchange_id.clone(),
            trading_day: self.trading_day.clone(),
            action_day: self.action_day.clone(),
            update_time: self.update_time.clone(),
            update_millisec: self.update_millisec,
            last_price: self.last_price,
            open_interest: self.open_interest,
        }
    }
}

#[derive(Clone, Copy, Debug, PartialEq, Eq, Structural)]
pub enum Side {
    Long,
    Short,
}

/// A one-minute bar, labelled by its end.
#[derive(Clone, Copy, Debug, PartialEq, Eq, Structural)]
pub struct CompletedBar {
    pub timestamp_ns: u64,
    pub close: Binary64,
    pub open_interest: Binary64,
}

#[derive(Clone, Copy, Debug, PartialEq, Eq, Structural)]
pub struct OpenPosition {
    pub side: Side,
    pub entry_price: Binary64,
    pub exit_row: usize,
}

#[derive(Clone, Copy, Debug, PartialEq, Eq, Structural)]
pub struct PendingEntry {
    pub side: Side,
    pub entry_row: usize,
    pub exit_row: usize,
}

/// The one visible target position of a leg.
#[derive(Debug, PartialEq, Eq)]
pub struct TargetPosition {
    pub symbol: String,
    pub ctpd_instrument_id: String,
    pub exchange_id: String,
    pub contracts: i64,
    pub entry_price: Binary64,
    pub latest_price: Binary64,
    pub multiplier: Binary64,
    pub updated_at_ms: i64,
}

impl Clone for TargetPosition {
    fn clone(&self) -> (r: Self)
        ensures
            r == *self,
    {
        TargetPosition {
            symbol: self.symbol.clone(),
            ctpd_instrument_id: self.ctpd_instrument_id.clone(),
            exchange_id: self.exchange_id.clone(),
            contracts: self.contracts,
            entry_price: self.entry_price,
            latest_price: self.latest_price,
            multiplier: self.multiplier,
            updated_at_ms: self.updated_at_ms,
        }
    }
}

/// A target position, with its texts as characters.
#[verifier::ext_equal]
pub struct Target {
    pub symbol: Seq<char>,
    pub ctpd_instrument_id: Seq<char>,
    pub exchange_id: Seq<char>,
    pub contracts: int,
    pub entry_price: Binary64,
    pub latest_price: Binary64,
    pub multiplier: Binary64,
    pub updated_at_ms: i64,
}

impl View for TargetPosition {
    type V = Target;

    open spec fn view(&self) -> Target {
        Target {
            symbol: self.symbol@,
            ctpd_instrument_id: self.ctpd_instrument_id@,
            exchange_id: self.exchange_id@,
            contracts: self.contracts as int,
            entry_price: self.entry_price,
            latest_price: self.latest_price,
            multiplier: self.multiplier,
            updated_at_ms: self.updated_at_ms,
        }
    }
}

#[derive(Clone, Debug)]
pub struct Lab0344Model {
    pub symbol: String,
    pub ctpd_instrument_id: String,
    pub target_contracts: i64,
    pub multiplier: Binary64,
    pub session_bar_count: usize,
    pub last_executable_signal_time: TimeOfDay,
    pub action_day: Option<String>,
    pub completed_rows: usize,
    pub signal_seen: bool,
    pub previous: Option<CompletedBar>,
    pub current: Option<CompletedBar>,
    pub pending_entry: Option<PendingEntry>,
    pub position: Option<OpenPosition>,
    pub exchange_id: String,
    pub latest_price: Option<Binary64>,
    pub last_live_tick_ns: Option<u64>,
    pub seeded_through_ns: Option<u64>,
}

/// What a model is configured with.
#[verifier::ext_equal]
pub struct Setup {
    pub symbol: Seq<char>,
    pub ctpd_instrument_id: Seq<char>,
    pub target_contracts: int,
    pub multiplier: Binary64,
    pub session_bar_count: int,
    pub last_executable_signal_time: TimeOfDay,
}

impl InstrumentConfig {
    /// The cutoff of the leg, where it is a time.
    pub open spec fn cutoff(self) -> Option<TimeOfDay> {
        match calendar::parsed_time(self.last_executable_signal_time@, "%H:%M:%S"@) {
            Some(time) => Some(TimeOfDay { seconds: time.0, nanoseconds: time.1 }),
            None => None,
        }
    }

    /// What a model with a cutoff is configured with.
    pub open spec fn setup(self, last_executable_signal_time: TimeOfDay) -> Setup {
        Setup {
            symbol: self.symbol@,
            ctpd_instrument_id: self.ctpd_instrument_id@,
            target_contracts: self.target_contracts as int,
            multiplier: self.contract_multiplier,
            session_bar_count: self.session_bar_count as int,
            last_executable_signal_time,
        }
    }
}

/// What a model has seen.
#[verifier::ext_equal]
pub struct Leg {
    pub action_day: Option<Seq<char>>,
    pub completed_rows: int,
    pub signal_seen: bool,
    pub previous: Option<CompletedBar>,
    pub current: Option<CompletedBar>,
    pub pending_entry: Option<PendingEntry>,
    pub position: Option<OpenPosition>,
    pub exchange_id: Seq<char>,
    pub latest_price: Option<Binary64>,
    pub last_live_tick_ns: Option<u64>,
    pub seeded_through_ns: Option<u64>,
}

impl Leg {
    /// Nothing is known.
    pub open spec fn clear() -> Self {
        Leg {
            action_day: None,
            completed_rows: 0,
            signal_seen: false,
            previous: None,
            current: None,
            pending_entry: None,
            position: None,
            exchange_id: Seq::empty(),
            latest_price: None,
            last_live_tick_ns: None,
            seeded_through_ns: None,
        }
    }

    /// A day begins.
    pub open spec fn on_day(action_day: Seq<char>) -> Self {
        Leg { action_day: Some(action_day), ..Self::clear() }
    }

    /// A bar opens: a position that ends here is left, and an entry that was
    /// waiting for this bar is made.
    pub open spec fn opened(self, price: Binary64) -> Self {
        let row = self.completed_rows + 1;
        let kept = match self.position {
            Some(position) => if position.exit_row == row {
                None
            } else {
                Some(position)
            },
            None => None,
        };
        match self.pending_entry {
            Some(entry) => if entry.entry_row == row {
                Leg {
                    pending_entry: None,
                    position: Some(
                        OpenPosition {
                            side: entry.side,
                            entry_price: price,
                            exit_row: entry.exit_row,
                        },
                    ),
                    ..self
                }
            } else {
                Leg { position: kept, ..self }
            },
            None => Leg { position: kept, ..self },
        }
    }

    /// The side that two bars signal: open interest grows, and the price moves
    /// with it.
    pub open spec fn signalled(previous: CompletedBar, bar: CompletedBar) -> Option<Side> {
        if previous.open_interest.less(bar.open_interest) && previous.close.less(bar.close) {
            Some(Side::Long)
        } else if previous.open_interest.less(bar.open_interest) && bar.close.less(
            previous.close,
        ) {
            Some(Side::Short)
        } else {
            None
        }
    }

    /// Whether a signal on the bar that completes as row `row` could be
    /// executed.
    pub open spec fn executable(setup: Setup, row: int, bar: CompletedBar) -> bool {
        &&& row >= MIN_COMPLETED_ROWS
        &&& row + EXIT_OFFSET_FROM_SIGNAL <= setup.session_bar_count
        &&& calendar::time_of_day(bar.timestamp_ns).no_later(setup.last_executable_signal_time)
    }

    /// A bar completes.
    pub open spec fn completed(self, setup: Setup, bar: CompletedBar) -> Result<Self, Seq<char>> {
        let row = self.completed_rows + 1;
        if self.completed_rows >= setup.session_bar_count {
            Err(too_many_bars(setup.session_bar_count))
        } else {
            let seen = Leg { completed_rows: row, previous: Some(bar), ..self };
            match self.previous {
                None => Ok(seen),
                Some(previous) => match Self::signalled(previous, bar) {
                    Some(side) => if !self.signal_seen && Self::executable(setup, row, bar) {
                        Ok(
                            Leg {
                                signal_seen: true,
                                pending_entry: Some(
                                    PendingEntry {
                                        side,
                                        entry_row: (row + 1) as usize,
                                        exit_row: (row + EXIT_OFFSET_FROM_SIGNAL) as usize,
                                    },
                                ),
                                ..seen
                            },
                        )
                    } else {
                        Ok(seen)
                    },
                    None => Ok(seen),
                },
            }
        }
    }

    /// The target position, while a position is open and a price is known.
    pub open spec fn target(self, setup: Setup, now_ms: i64) -> Result<Option<Target>, Seq<char>> {
        match (self.position, self.latest_price) {
            (Some(position), Some(latest)) => {
                let contracts = match position.side {
                    Side::Long => setup.target_contracts,
                    Side::Short => -setup.target_contracts,
                };
                let size = Binary64::of_int(contracts);
                let exposure = size.product(latest).product(setup.multiplier);
                let profit = latest.difference(position.entry_price).product(size).product(
                    setup.multiplier,
                );
                if !exposure.finite() || !profit.finite() {
                    Err("target position arithmetic is not finite"@)
                } else {
                    Ok(
                        Some(
                            Target {
                                symbol: setup.symbol,
                                ctpd_instrument_id: setup.ctpd_instrument_id,
                                exchange_id: self.exchange_id,
                                contracts,
                                entry_price: position.entry_price,
                                latest_price: latest,
                                multiplier: setup.multiplier,
                                updated_at_ms: now_ms,
                            },
                        ),
                    )
                }
            },
            _ => Ok(None),
        }
    }

    /// A bar that a tick opens.
    pub open spec fn with_bar(self, tick: CtpdTick, endpoint_ns: u64) -> Self {
        Leg {
            current: Some(
                CompletedBar {
                    timestamp_ns: endpoint_ns,
                    close: tick.last_price,
                    open_interest: tick.open_interest,
                },
            ),
            ..self.opened(tick.last_price)
        }
    }

    /// The bar that a tick falls into: it opens one, adds to it, or completes
    /// it and opens the next.
    pub open spec fn with_tick(self, setup: Setup, tick: CtpdTick, endpoint_ns: u64) -> (
        Self,
        Option<Seq<char>>,
    ) {
        match self.current {
            None => (self.with_bar(tick, endpoint_ns), None),
            Some(current) => if current.timestamp_ns == endpoint_ns {
                (
                    Leg {
                        current: Some(
                            CompletedBar {
                                timestamp_ns: endpoint_ns,
                                close: tick.last_price,
                                open_interest: tick.open_interest,
                            },
                        ),
                        ..self
                    },
                    None,
                )
            } else if current.timestamp_ns < endpoint_ns {
                let closing = Leg { current: None, ..self };
                match closing.completed(setup, current) {
                    Err(error) => (closing, Some(error)),
                    Ok(next) => (next.with_bar(tick, endpoint_ns), None),
                }
            } else {
                (self, Some("CTPD tick moves before the current minute"@))
            },
        }
    }

    /// A tick that is as it should be is taken in with its timestamp.
    pub open spec fn ingested_at(
        self,
        setup: Setup,
        tick: CtpdTick,
        tick_ns: u64,
        now_ms: i64,
    ) -> (Self, Result<Option<Target>, Seq<char>>) {
        match endpoint(tick_ns) {
            None => (self, Err("CTPD bar endpoint overflow"@)),
            Some(endpoint_ns) => {
                let today = if self.action_day == Some(tick.action_day@) {
                    self
                } else {
                    Self::on_day(tick.action_day@)
                };
                if today.seeded_through_ns matches Some(seeded) && endpoint_ns <= seeded {
                    (today, Ok(None))
                } else if today.last_live_tick_ns matches Some(previous) && tick_ns < previous {
                    (today, Err("CTPD tick is out of order"@))
                } else {
                    match today.with_tick(setup, tick, endpoint_ns) {
                        (next, Some(error)) => (next, Err(error)),
                        (next, None) => {
                            let live = Leg {
                                last_live_tick_ns: Some(tick_ns),
                                exchange_id: tick.exchange_id@,
                                latest_price: Some(tick.last_price),
                                ..next
                            };
                            (live, live.target(setup, now_ms))
                        },
                    }
                }
            },
        }
    }

    /// A tick is taken in.
    pub open spec fn ingested(self, setup: Setup, tick: CtpdTick, now_ms: i64) -> (
        Self,
        Result<Option<Target>, Seq<char>>,
    ) {
        match invalid_tick(tick, setup.ctpd_instrument_id) {
            Some(error) => (self, Err(error)),
            None => match tick_time(tick) {
                Err(error) => (self, Err(error)),
                Ok(tick_ns) => self.ingested_at(setup, tick, tick_ns, now_ms),
            },
        }
    }

    /// Bars of a session are replayed, one after the other.
    pub open spec fn replayed(self, setup: Setup, bars: Seq<HistoryBar>) -> Result<Self, Seq<char>>
        decreases bars.len(),
    {
        if bars.len() == 0 {
            Ok(self)
        } else {
            match self.replayed(setup, bars.drop_last()) {
                Err(error) => Err(error),
                Ok(leg) => leg.opened(bars.last().open).completed(
                    setup,
                    CompletedBar {
                        timestamp_ns: bars.last().timestamp_ns,
                        close: bars.last().close,
                        open_interest: bars.last().open_interest,
                    },
                ),
            }
        }
    }

    /// What is known after a history: its last day is replayed.
    pub open spec fn seeded(setup: Setup, history: Seq<HistoryBar>) -> (
        Self,
        Result<(), Seq<char>>,
    ) {
        if history.len() == 0 {
            (Self::clear(), Ok(()))
        } else {
            let last = history.last().timestamp_ns;
            let session = same_day(history, day_of(last));
            if session.len() > setup.session_bar_count {
                (Self::clear(), Err(long_session(session.len() as int, setup.session_bar_count)))
            } else {
                match Self::on_day(day_name(day_of(last))).replayed(setup, session) {
                    Ok(leg) => (
                        Leg {
                            seeded_through_ns: Some(last),
                            exchange_id: Seq::empty(),
                            latest_price: None,
                            ..leg
                        },
                        Ok(()),
                    ),
                    Err(error) => (Self::clear(), Err(error)),
                }
            }
        }
    }
}

/// The number of the day that a timestamp falls on.
pub open spec fn day_of(timestamp_ns: u64) -> int {
    (timestamp_ns / 86_400_000_000_000) as int
}

/// A day by its number, in the form `20260812`.
pub open spec fn day_name(number: int) -> Seq<char> {
    calendar::compact_day(calendar::date_of(number))
}

/// The bars of a day.
pub open spec fn same_day(history: Seq<HistoryBar>, number: int) -> Seq<HistoryBar>
    decreases history.len(),
{
    if history.len() == 0 {
        history
    } else if day_of(history.last().timestamp_ns) == number {
        same_day(history.drop_last(), number).push(history.last())
    } else {
        same_day(history.drop_last(), number)
    }
}

pub open spec fn too_many_bars(session_bar_count: int) -> Seq<char> {
    "received more than configured session_bar_count "@ + text::numeral(session_bar_count as nat)
}

pub open spec fn long_session(bars: int, session_bar_count: int) -> Seq<char> {
    "Parquet session has "@ + text::numeral(bars as nat)
        + " bars, above configured session_bar_count "@ + text::numeral(session_bar_count as nat)
}

/// What is wrong with a tick, its trading day aside; `dated` says whether that
/// is a date.
pub open spec fn tick_problem(tick: CtpdTick, expected: Seq<char>, dated: bool) -> Option<
    Seq<char>,
> {
    if tick.instrument_id@ != expected {
        Some("CTPD tick instrument "@ + tick.instrument_id@ + " does not match "@ + expected)
    } else if tick.exchange_id@.len() == 0 || !dated || !tick.last_price.finite()
        || !tick.last_price.positive() || !tick.open_interest.finite()
        || tick.open_interest.value() < 0 || tick.update_millisec < 0 || tick.update_millisec
        >= 1000 {
        Some("CTPD tick has invalid market fields"@)
    } else {
        None
    }
}

/// What is wrong with a tick.
pub open spec fn invalid_tick(tick: CtpdTick, expected: Seq<char>) -> Option<Seq<char>> {
    tick_problem(
        tick,
        expected,
        calendar::parsed_date(tick.trading_day@, "%Y%m%d"@) is Some,
    )
}

/// The timestamp of a clock that shows seconds since 1970-01-01 and
/// milliseconds.
pub open spec fn clock_nanoseconds(seconds: i64, millisec: i32) -> Result<u64, Seq<char>> {
    let whole = seconds * 1_000_000_000;
    let total = whole + millisec * 1_000_000;
    if whole < i64::MIN || whole > i64::MAX || total > i64::MAX {
        Err("CTPD tick timestamp overflow"@)
    } else if total < 0 {
        Err("CTPD tick timestamp precedes Unix epoch"@)
    } else {
        Ok(total as u64)
    }
}

/// The timestamp of a tick.
pub open spec fn tick_time(tick: CtpdTick) -> Result<u64, Seq<char>> {
    match calendar::parsed_clock(
        tick.action_day@ + " "@ + tick.update_time@,
        "%Y%m%d %H:%M:%S"@,
    ) {
        None => Err("CTPD tick has invalid action_day/update_time"@),
        Some(seconds) => clock_nanoseconds(seconds, tick.update_millisec),
    }
}

/// The end of the minute that a timestamp falls into.
pub open spec fn endpoint(timestamp_ns: u64) -> Option<u64> {
    let end = (timestamp_ns / NANOSECONDS_PER_MINUTE + 1) * NANOSECONDS_PER_MINUTE;
    if end > u64::MAX {
        None
    } else {
        Some(end as u64)
    }
}

/// `SystemTime::now`, as milliseconds since 1970-01-01; nothing is known of the
/// result.
#[verifier::external_body]
fn now_ms() -> (r: i64) {
    SystemTime::now().duration_since(UNIX_EPOCH).map(|value| value.as_millis() as i64).unwrap_or_default()
}

/// Checks a tick; `dated` says whether its trading day is a date.
pub fn check_tick(tick: &CtpdTick, expected_instrument: &str, dated: bool) -> (r: Result<(), String>)
    ensures
        match tick_problem(*tick, expected_instrument@, dated) {
            Some(error) => r matches Err(message) && message@ == error,
            None => r is Ok,
        },
{
    if !text::same(tick.instrument_id.as_str(), expected_instrument) {
        let mut message: String = "CTPD tick instrument ".to_owned();
        message.append(tick.instrument_id.as_str());
        message.append(" does not match ");
        message.append(expected_instrument);
        return Err(message);
    }
    if tick.exchange_id.as_str().is_empty() || !dated || !tick.last_price.is_finite()
        || !tick.last_price.is_positive() || !tick.open_interest.is_finite()
        || tick.open_interest.is_below_zero() || tick.update_millisec < 0 || tick.update_millisec
        >= 1000 {
        return Err("CTPD tick has invalid market fields".to_owned());
    }
    Ok(())
}

fn validate_tick(tick: &CtpdTick, expected_instrument: &str) -> (r: Result<(), String>)
    ensures
        match invalid_tick(*tick, expected_instrument@) {
            Some(error) => r matches Err(message) && message@ == error,
            None => r is Ok,
        },
{
    let dated: bool = calendar::is_compact_date(tick.trading_day.as_str());
    check_tick(tick, expected_instrument, dated)
}

/// The timestamp of a clock that shows seconds and milliseconds.
pub fn clock_timestamp_ns(seconds: i64, millisec: i32) -> (r: Result<u64, String>)
    requires
        0 <= millisec < 1000,
    ensures
        match clock_nanoseconds(seconds, millisec) {
            Ok(timestamp_ns) => r == Ok::<u64, String>(timestamp_ns),
            Err(error) => r matches Err(message) && message@ == error,
        },
{
    let nanoseconds: i64 = (millisec as i64) * 1_000_000;
    let whole: i64 = match seconds.checked_mul(1_000_000_000) {
        Some(whole) => whole,
        None => {
            return Err("CTPD tick timestamp overflow".to_owned());
        },
    };
    let total: i64 = match whole.checked_add(nanoseconds) {
        Some(total) => total,
        None => {
            return Err("CTPD tick timestamp overflow".to_owned());
        },
    };
    if total < 0 {
        return Err("CTPD tick timestamp precedes Unix epoch".to_owned());
    }
    Ok(total as u64)
}

fn tick_timestamp_ns(tick: &CtpdTick) -> (r: Result<u64, String>)
    requires
        0 <= tick.update_millisec < 1000,
    ensures
        match tick_time(*tick) {
            Ok(timestamp_ns) => r == Ok::<u64, String>(timestamp_ns),
            Err(error) => r matches Err(message) && message@ == error,
        },
{
    let mut clock: String = tick.action_day.clone();
    clock.append(" ");
    clock.append(tick.update_time.as_str());
    match calendar::compact_clock_seconds(clock.as_str()) {
        Some(seconds) => clock_timestamp_ns(seconds, tick.update_millisec),
        None => Err("CTPD tick has invalid action_day/update_time".to_owned()),
    }
}

fn bar_endpoint_ns(tick_timestamp_ns: u64) -> (r: Option<u64>)
    ensures
        r == endpoint(tick_timestamp_ns),
{
    let minute: u64 = tick_timestamp_ns / NANOSECONDS_PER_MINUTE + 1;
    minute.checked_mul(NANOSECONDS_PER_MINUTE)
}

/// The day of a historical timestamp, in the form `20260812`. The natural date
/// of the source is kept.
pub fn history_day(timestamp_ns: u64) -> (r: Result<String, String>)
    ensures
        r matches Ok(day) && day@ == day_name(day_of(timestamp_ns)),
{
    let (day, _time): (TradingDay, TimeOfDay) = calendar::clock(timestamp_ns);
    proof {
        calendar::lemma_number_order(
            day@,
            calendar::date_of(day.number()),
        );
    }
    Ok(day.to_compact_text())
}

/// The time of day of a historical timestamp.
fn bar_time(timestamp_ns: u64) -> (r: TimeOfDay)
    ensures
        r == calendar::time_of_day(timestamp_ns),
{
    calendar::clock(timestamp_ns).1
}

impl Lab0344Model {
    pub open spec fn setup(self) -> Setup {
        Setup {
            symbol: self.symbol@,
            ctpd_instrument_id: self.ctpd_instrument_id@,
            target_contracts: self.target_contracts as int,
            multiplier: self.multiplier,
            session_bar_count: self.session_bar_count as int,
            last_executable_signal_time: self.last_executable_signal_time,
        }
    }

    pub open spec fn leg(self) -> Leg {
        Leg {
            action_day: match self.action_day {
                Some(day) => Some(day@),
                None => None,
            },
            completed_rows: self.completed_rows as int,
            signal_seen: self.signal_seen,
            previous: self.previous,
            current: self.current,
            pending_entry: self.pending_entry,
            position: self.position,
            exchange_id: self.exchange_id@,
            latest_price: self.latest_price,
            last_live_tick_ns: self.last_live_tick_ns,
            seeded_through_ns: self.seeded_through_ns,
        }
    }

    /// A model that has seen nothing, with its cutoff.
    pub fn with_cutoff(config: &InstrumentConfig, last_executable_signal_time: TimeOfDay) -> (r: Self)
        ensures
            r.leg() == Leg::clear(),
            r.setup() == config.setup(last_executable_signal_time),
    {
        let model = Lab0344Model {
            symbol: config.symbol.clone(),
            ctpd_instrument_id: config.ctpd_instrument_id.clone(),
            target_contracts: config.target_contracts,
            multiplier: config.contract_multiplier,
            session_bar_count: config.session_bar_count,
            last_executable_signal_time,
            action_day: None,
            completed_rows: 0,
            signal_seen: false,
            previous: None,
            current: None,
            pending_entry: None,
            position: None,
            exchange_id: String::new(),
            latest_price: None,
            last_live_tick_ns: None,
            seeded_through_ns: None,
        };
        assert(model.leg() =~= Leg::clear());
        assert(model.setup() =~= config.setup(last_executable_signal_time));
        model
    }

    /// A model that has seen nothing. The cutoff has to be a time such as
    /// `14:40:00`.
    pub fn new(config: &InstrumentConfig) -> (r: Self)
        requires
            config.cutoff() is Some,
        ensures
            r.leg() == Leg::clear(),
            r.setup() == config.setup(config.cutoff()->Some_0),
    {
        let cutoff: TimeOfDay = TimeOfDay::parse(
            config.last_executable_signal_time.as_str(),
        ).unwrap();
        Self::with_cutoff(config, cutoff)
    }

    /// A model that has seen nothing, if the cutoff is a time.
    pub fn configured(config: &InstrumentConfig) -> (r: Option<Self>)
        ensures
            match config.cutoff() {
                None => r is None,
                Some(cutoff) => r matches Some(model) && model.leg() == Leg::clear()
                    && model.setup() == config.setup(cutoff),
            },
    {
        match TimeOfDay::parse(config.last_executable_signal_time.as_str()) {
            None => None,
            Some(_) => Some(Self::new(config)),
        }
    }

    /// Replays the completed bars of the last natural day of a history. This
    /// restores the state that the live machine would have reached before.
    pub fn seed_history(&mut self, history: &[HistoryBar]) -> (r: Result<(), String>)
        ensures
            final(self).setup() == old(self).setup(),
            ({
                let (leg, outcome) = Leg::seeded(old(self).setup(), history@);
                &&& final(self).leg() == leg
                &&& match outcome {
                    Ok(()) => r is Ok,
                    Err(error) => r matches Err(message) && message@ == error,
                }
            }),
    {
        self.clear_state();
        if history.len() == 0 {
            return Ok(());
        }
        let last: u64 = history[history.len() - 1].timestamp_ns;
        let mut session: Vec<HistoryBar> = Vec::new();
        let mut i: usize = 0;
        let ghost number = day_of(last);
        let day: u64 = last / 86_400_000_000_000;
        assert(history@.take(0) =~= Seq::<HistoryBar>::empty());
        while i < history.len()
            invariant
                i <= history@.len(),
                day == number,
                session@ == same_day(history@.take(i as int), number),
                session@.len() <= i,
            decreases history@.len() - i,
        {
            proof {
                assert(history@.take(i + 1).drop_last() =~= history@.take(i as int));
            }
            if history[i].timestamp_ns / 86_400_000_000_000 == day {
                session.push(history[i]);
            }
            i = i + 1;
        }
        assert(history@.take(history@.len() as int) =~= history@);
        if session.len() > self.session_bar_count {
            let mut message: String = "Parquet session has ".to_owned();
            text::push_numeral(&mut message, session.len() as u128);
            message.append(" bars, above configured session_bar_count ");
            text::push_numeral(&mut message, self.session_bar_count as u128);
            return Err(message);
        }
        self.reset_day(history_day(last)?);
        let ghost start = self.leg();
        let ghost setup = self.setup();
        let mut i: usize = 0;
        assert(session@.take(0) =~= Seq::<HistoryBar>::empty());
        while i < session.len()
            invariant
                i <= session@.len(),
                session@.len() <= self.session_bar_count,
                setup == old(self).setup(),
                self.setup() == setup,
                start == Leg::on_day(day_name(number)),
                start.replayed(setup, session@.take(i as int)) == Ok::<Leg, Seq<char>>(self.leg()),
                self.completed_rows == i,
            decreases session@.len() - i,
        {
            proof {
                assert(session@.take(i + 1).drop_last() =~= session@.take(i as int));
            }
            let bar: HistoryBar = session[i];
            self.open_next_bar(bar.open);
            self.complete_bar(
                CompletedBar {
                    timestamp_ns: bar.timestamp_ns,
                    close: bar.close,
                    open_interest: bar.open_interest,
                },
            )?;
            i = i + 1;
        }
        assert(session@.take(session@.len() as int) =~= session@);
        self.seeded_through_ns = Some(last);
        self.exchange_id = String::new();
        self.latest_price = None;
        proof {
            assert(self.leg() =~= Leg::seeded(old(self).setup(), history@).0);
        }
        Ok(())
    }

    /// Takes a tick in and gives the target position that follows from it.
    pub fn ingest(&mut self, tick: CtpdTick) -> (r: Result<Option<TargetPosition>, String>)
        requires
            old(self).target_contracts != i64::MIN,
        ensures
            final(self).setup() == old(self).setup(),
            exists|now_ms: i64|
                {
                    let (leg, outcome) = #[trigger] old(self).leg().ingested(
                        old(self).setup(),
                        tick,
                        now_ms,
                    );
                    &&& final(self).leg() == leg
                    &&& is_target(r, outcome)
                },
    {
        self.ingest_at(tick, now_ms())
    }

    /// Takes a tick in at a given time.
    pub fn ingest_at(&mut self, tick: CtpdTick, updated_at_ms: i64) -> (r: Result<
        Option<TargetPosition>,
        String,
    >)
        requires
            old(self).target_contracts != i64::MIN,
        ensures
            final(self).setup() == old(self).setup(),
            ({
                let (leg, outcome) = old(self).leg().ingested(
                    old(self).setup(),
                    tick,
                    updated_at_ms,
                );
                &&& final(self).leg() == leg
                &&& is_target(r, outcome)
            }),
    {
        validate_tick(&tick, self.ctpd_instrument_id.as_str())?;
        let tick_timestamp_ns: u64 = tick_timestamp_ns(&tick)?;
        self.ingest_timed(tick, tick_timestamp_ns, updated_at_ms)
    }

    /// Takes a tick in that is as it should be, with its timestamp.
    pub fn ingest_timed(&mut self, tick: CtpdTick, tick_timestamp_ns: u64, updated_at_ms: i64) -> (r:
        Result<Option<TargetPosition>, String>)
        requires
            old(self).target_contracts != i64::MIN,
        ensures
            final(self).setup() == old(self).setup(),
            ({
                let (leg, outcome) = old(self).leg().ingested_at(
                    old(self).setup(),
                    tick,
                    tick_timestamp_ns,
                    updated_at_ms,
                );
                &&& final(self).leg() == leg
                &&& is_target(r, outcome)
            }),
    {
        let bar_endpoint_ns: u64 = match bar_endpoint_ns(tick_timestamp_ns) {
            Some(bar_endpoint_ns) => bar_endpoint_ns,
            None => {
                return Err("CTPD bar endpoint overflow".to_owned());
            },
        };
        let same_day: bool = match &self.action_day {
            Some(day) => text::same(day.as_str(), tick.action_day.as_str()),
            None => false,
        };
        if !same_day {
            self.reset_day(tick.action_day.clone());
        }
        let ghost today = self.leg();
        if let Some(seeded) = self.seeded_through_ns {
            if bar_endpoint_ns <= seeded {
                return Ok(None);
            }
        }
        if let Some(previous) = self.last_live_tick_ns {
            if tick_timestamp_ns < previous {
                return Err("CTPD tick is out of order".to_owned());
            }
        }
        self.take_tick(&tick, bar_endpoint_ns)?;
        self.last_live_tick_ns = Some(tick_timestamp_ns);
        self.exchange_id = tick.exchange_id;
        self.latest_price = Some(tick.last_price);
        self.target_at(updated_at_ms)
    }

    fn take_tick(&mut self, tick: &CtpdTick, bar_endpoint_ns: u64) -> (r: Result<(), String>)
        ensures
            final(self).setup() == old(self).setup(),
            final(self).target_contracts == old(self).target_contracts,
            ({
                let (leg, outcome) = old(self).leg().with_tick(
                    old(self).setup(),
                    *tick,
                    bar_endpoint_ns,
                );
                &&& final(self).leg() == leg
                &&& match outcome {
                    None => r is Ok,
                    Some(error) => r matches Err(message) && message@ == error,
                }
            }),
    {
        let next = CompletedBar {
            timestamp_ns: bar_endpoint_ns,
            close: tick.last_price,
            open_interest: tick.open_interest,
        };
        match self.current {
            None => {
                self.open_next_bar(tick.last_price);
                self.current = Some(next);
                Ok(())
            },
            Some(current) => if current.timestamp_ns == bar_endpoint_ns {
                self.current = Some(next);
                Ok(())
            } else if current.timestamp_ns < bar_endpoint_ns {
                self.current = None;
                assert(self.leg() == (Leg { current: None, ..old(self).leg() }));
                self.complete_bar(current)?;
                self.open_next_bar(tick.last_price);
                self.current = Some(next);
                Ok(())
            } else {
                Err("CTPD tick moves before the current minute".to_owned())
            },
        }
    }

    /// A gap in the feed invalidates both the visible target and the bars that
    /// were being built.
    pub fn clear_state(&mut self)
        ensures
            final(self).setup() == old(self).setup(),
            final(self).target_contracts == old(self).target_contracts,
            final(self).leg() == Leg::clear(),
    {
        self.action_day = None;
        self.completed_rows = 0;
        self.signal_seen = false;
        self.previous = None;
        self.current = None;
        self.pending_entry = None;
        self.position = None;
        self.exchange_id = String::new();
        self.latest_price = None;
        self.last_live_tick_ns = None;
        self.seeded_through_ns = None;
        assert(self.leg() =~= Leg::clear());
    }

    fn reset_day(&mut self, action_day: String)
        ensures
            final(self).setup() == old(self).setup(),
            final(self).target_contracts == old(self).target_contracts,
            final(self).leg() == Leg::on_day(action_day@),
    {
        self.clear_state();
        self.action_day = Some(action_day);
    }

    /// Opens a bar.
    pub fn open_next_bar(&mut self, entry_price: Binary64)
        ensures
            final(self).setup() == old(self).setup(),
            final(self).target_contracts == old(self).target_contracts,
            final(self).leg() == old(self).leg().opened(entry_price),
    {
        if let Some(position) = self.position {
            if position.exit_row > 0 && position.exit_row - 1 == self.completed_rows {
                self.position = None;
            }
        }
        if let Some(entry) = self.pending_entry {
            if entry.entry_row > 0 && entry.entry_row - 1 == self.completed_rows {
                self.pending_entry = None;
                self.position = Some(
                    OpenPosition { side: entry.side, entry_price, exit_row: entry.exit_row },
                );
            }
        }
    }

    /// Completes a bar.
    pub fn complete_bar(&mut self, bar: CompletedBar) -> (r: Result<(), String>)
        ensures
            final(self).setup() == old(self).setup(),
            final(self).target_contracts == old(self).target_contracts,
            match old(self).leg().completed(old(self).setup(), bar) {
                Ok(leg) => r is Ok && final(self).leg() == leg,
                Err(error) => {
                    &&& r matches Err(message) && message@ == error
                    &&& final(self).leg() == old(self).leg()
                },
            },
    {
        if self.completed_rows >= self.session_bar_count {
            let mut message: String = "received more than configured session_bar_count ".to_owned();
            text::push_numeral(&mut message, self.session_bar_count as u128);
            return Err(message);
        }
        self.completed_rows = self.completed_rows + 1;
        let previous: CompletedBar = match self.previous {
            Some(previous) => previous,
            None => {
                self.previous = Some(bar);
                return Ok(());
            },
        };
        let can_schedule: bool = self.completed_rows >= MIN_COMPLETED_ROWS
            && self.session_bar_count - self.completed_rows >= EXIT_OFFSET_FROM_SIGNAL
            && bar_time(bar.timestamp_ns).is_no_later(self.last_executable_signal_time);
        if !self.signal_seen && can_schedule {
            let side: Option<Side> = if previous.open_interest.is_less(bar.open_interest)
                && previous.close.is_less(bar.close) {
                Some(Side::Long)
            } else if previous.open_interest.is_less(bar.open_interest) && bar.close.is_less(
                previous.close,
            ) {
                Some(Side::Short)
            } else {
                None
            };
            if let Some(side) = side {
                self.signal_seen = true;
                self.pending_entry = Some(
                    PendingEntry {
                        side,
                        entry_row: self.completed_rows + 1,
                        exit_row: self.completed_rows + EXIT_OFFSET_FROM_SIGNAL,
                    },
                );
            }
        }
        self.previous = Some(bar);
        Ok(())
    }

    /// The target position.
    pub fn target(&self) -> (r: Result<Option<TargetPosition>, String>)
        requires
            self.target_contracts != i64::MIN,
        ensures
            exists|now_ms: i64|
                is_target(r, #[trigger] self.leg().target(self.setup(), now_ms)),
    {
        self.target_at(now_ms())
    }

    /// The target position at a given time.
    pub fn target_at(&self, updated_at_ms: i64) -> (r: Result<Option<TargetPosition>, String>)
        requires
            self.target_contracts != i64::MIN,
        ensures
            is_target(r, self.leg().target(self.setup(), updated_at_ms)),
    {
        let position: OpenPosition = match self.position {
            Some(position) => position,
            None => {
                return Ok(None);
            },
        };
        let latest_price: Binary64 = match self.latest_price {
            Some(latest_price) => latest_price,
            None => {
                return Ok(None);
            },
        };
        let contracts: i64 = match position.side {
            Side::Long => self.target_contracts,
            Side::Short => -self.target_contracts,
        };
        let size: Binary64 = Binary64::from_i64(contracts);
        let exposure: Binary64 = size.times(latest_price).times(self.multiplier);
        let floating_profit: Binary64 = latest_price.minus(position.entry_price).times(size).times(
            self.multiplier,
        );
        if !exposure.is_finite() || !floating_profit.is_finite() {
            return Err("target position arithmetic is not finite".to_owned());
        }
        Ok(
            Some(
                TargetPosition {
                    symbol: self.symbol.clone(),
                    ctpd_instrument_id: self.ctpd_instrument_id.clone(),
                    exchange_id: self.exchange_id.clone(),
                    contracts,
                    entry_price: position.entry_price,
                    latest_price,
                    multiplier: self.multiplier,
                    updated_at_ms,
                },
            ),
        )
    }
}

/// Whether an answer is the outcome.
pub open spec fn is_target(
    r: Result<Option<TargetPosition>, String>,
    outcome: Result<Option<Target>, Seq<char>>,
) -> bool {
    match (r, outcome) {
        (Ok(None), Ok(None)) => true,
        (Ok(Some(found)), Ok(Some(target))) => found@ == target,
        (Err(message), Err(error)) => message@ == error,
        _ => false,
    }
}

/// The models of all legs, and the target positions that they show.
#[derive(Debug)]
pub struct Portfolio {
    pub models: TextMap<Lab0344Model>,
    pub targets: TextMap<TargetPosition>,
}

impl Default for Portfolio {
    fn default() -> (r: Self)
        ensures
            r.well_formed(),
            r.models.keys() == Seq::<String>::empty(),
            r.targets.keys() == Seq::<String>::empty(),
    {
        Portfolio { models: TextMap::new(), targets: TextMap::new() }
    }
}

/// Whether a key stands for the same in two maps.
pub open spec fn alike<V>(a: TextMap<V>, b: TextMap<V>, key: Seq<char>) -> bool {
    a.has(key) == b.has(key) && (a.has(key) ==> a.at(key) == b.at(key))
}

/// Whether two maps differ in at most one key.
pub open spec fn alike_but<V>(a: TextMap<V>, b: TextMap<V>, key: Seq<char>) -> bool {
    forall|other: Seq<char>| other != key ==> #[trigger] alike(a, b, other)
}

impl Portfolio {
    pub open spec fn well_formed(self) -> bool {
        &&& self.models.well_formed()
        &&& self.targets.well_formed()
        &&& forall|key: Seq<char>| #[trigger]
            self.models.has(key) ==> self.models.at(key).target_contracts != i64::MIN
    }

    /// Adds the model of a leg, in place of one that was there.
    pub fn insert(&mut self, instrument_id: String, model: Lab0344Model)
        requires
            old(self).well_formed(),
            model.target_contracts != i64::MIN,
        ensures
            final(self).well_formed(),
            final(self).targets == old(self).targets,
            final(self).models.has(instrument_id@),
            final(self).models.at(instrument_id@) == model,
            alike_but(final(self).models, old(self).models, instrument_id@),
    {
        let ghost key = instrument_id@;
        self.models.set(instrument_id, model);
        proof {
            assert forall|other: Seq<char>| #[trigger] self.models.has(other) implies self.models.at(
                other,
            ).target_contracts != i64::MIN by {
                if other != key {
                    assert(old(self).models.has(other));
                    assert(self.models.at(other) == old(self).models.at(other));
                }
            }
            assert forall|other: Seq<char>| other != key implies #[trigger] alike(
                self.models,
                old(self).models,
                other,
            ) by {
                assert(self.models.has(other) <==> old(self).models.has(other));
                if old(self).models.has(other) {
                    assert(self.models.at(other) == old(self).models.at(other));
                }
            }
        }
    }

    /// Takes a tick in: the model of its leg moves on, and its target is shown
    /// or withdrawn.
    pub fn ingest(&mut self, tick: CtpdTick) -> (r: Result<(), String>)
        requires
            old(self).well_formed(),
        ensures
            final(self).well_formed(),
            exists|now_ms: i64| #[trigger] is_ingested(*old(self), *final(self), tick, now_ms, r),
    {
        let at: i64 = now_ms();
        self.ingest_at(tick, at)
    }

    /// Takes a tick in at a given time.
    pub fn ingest_at(&mut self, tick: CtpdTick, updated_at_ms: i64) -> (r: Result<(), String>)
        requires
            old(self).well_formed(),
        ensures
            final(self).well_formed(),
            is_ingested(*old(self), *final(self), tick, updated_at_ms, r),
    {
        let id: String = tick.instrument_id.clone();
        let ghost key = id@;
        let ghost given = tick;
        let ghost before = self.models;
        let outcome: Result<Option<TargetPosition>, String> = match self.models.get_mut(
            id.as_str(),
        ) {
            None => {
                let mut message: String = "no configured model for CTPD instrument ".to_owned();
                message.append(id.as_str());
                proof {
                    lemma_same_map(self.models, before);
                }
                return Err(message);
            },
            Some(model) => model.ingest_at(tick, updated_at_ms),
        };
        proof {
            lemma_updated_map(before, self.models, key);
        }
        match outcome? {
            Some(target) => {
                self.targets.set(id, target);
                proof {
                    assert forall|other: Seq<char>| other != key implies #[trigger] alike(
                        self.targets,
                        old(self).targets,
                        other,
                    ) by {
                        assert(self.targets.has(other) <==> old(self).targets.has(other));
                        if old(self).targets.has(other) {
                            assert(self.targets.at(other) == old(self).targets.at(other));
                        }
                    }
                }
            },
            None => {
                let _removed: bool = self.targets.remove(id.as_str());
                proof {
                    assert forall|other: Seq<char>| other != key implies #[trigger] alike(
                        self.targets,
                        old(self).targets,
                        other,
                    ) by {
                        assert(self.targets.has(other) <==> old(self).targets.has(other) && other
                            != key);
                        if old(self).targets.has(other) {
                            assert(self.targets.at(other) == old(self).targets.at(other));
                        }
                    }
                }
            },
        }
        Ok(())
    }

    /// A disconnected or stale feed leaves no target visible.
    pub fn clear(&mut self, instrument_id: &str)
        requires
            old(self).well_formed(),
        ensures
            final(self).well_formed(),
            !final(self).targets.has(instrument_id@),
            alike_but(final(self).targets, old(self).targets, instrument_id@),
            final(self).models.has(instrument_id@) == old(self).models.has(instrument_id@),
            old(self).models.has(instrument_id@) ==> {
                let model = final(self).models.at(instrument_id@);
                model.leg() == Leg::clear() && model.setup() == old(self).models.at(
                    instrument_id@,
                ).setup()
            },
            alike_but(final(self).models, old(self).models, instrument_id@),
    {
        let ghost before = self.models;
        let ghost key = instrument_id@;
        match self.models.get_mut(instrument_id) {
            Some(model) => {
                model.clear_state();
            },
            None => {},
        }
        proof {
            if before.has(key) {
                lemma_updated_map(before, self.models, key);
            } else {
                lemma_same_map(self.models, before);
            }
        }
        let _removed: bool = self.targets.remove(instrument_id);
        proof {
            assert forall|other: Seq<char>| other != key implies #[trigger] alike(
                self.targets,
                old(self).targets,
                other,
            ) by {
                assert(self.targets.has(other) <==> old(self).targets.has(other) && other != key);
                if old(self).targets.has(other) {
                    assert(self.targets.at(other) == old(self).targets.at(other));
                }
            }
        }
    }

    /// Replays a history into the model of a leg. The leg shows no target until
    /// its next tick.
    pub fn seed(&mut self, instrument_id: &str, history: &[HistoryBar]) -> (r: Result<(), String>)
        requires
            old(self).well_formed(),
        ensures
            final(self).well_formed(),
            is_seeded(*old(self), *final(self), instrument_id@, history@, r),
    {
        let ghost before = self.models;
        let ghost key = instrument_id@;
        let outcome: Result<(), String> = match self.models.get_mut(instrument_id) {
            None => {
                let mut message: String = "no configured model for CTPD instrument ".to_owned();
                message.append(instrument_id);
                proof {
                    lemma_same_map(self.models, before);
                }
                return Err(message);
            },
            Some(model) => model.seed_history(history),
        };
        proof {
            lemma_updated_map(before, self.models, key);
        }
        let _removed: bool = self.targets.remove(instrument_id);
        proof {
            assert forall|other: Seq<char>| other != key implies #[trigger] alike(
                self.targets,
                old(self).targets,
                other,
            ) by {
                assert(self.targets.has(other) <==> old(self).targets.has(other) && other != key);
                if old(self).targets.has(other) {
                    assert(self.targets.at(other) == old(self).targets.at(other));
                }
            }
        }
        outcome
    }

    /// A feed that was lost leaves no target of any leg visible, and nothing that
    /// a target could be made of.
    pub fn clear_all(&mut self)
        requires
            old(self).well_formed(),
        ensures
            final(self).well_formed(),
            final(self).targets.keys() == Seq::<String>::empty(),
            forall|key: Seq<char>| #[trigger]
                final(self).models.has(key) == old(self).models.has(key),
            forall|key: Seq<char>| #[trigger]
                old(self).models.has(key) ==> {
                    let model = final(self).models.at(key);
                    model.leg() == Leg::clear() && model.setup() == old(self).models.at(
                        key,
                    ).setup()
                },
    {
        let mut ids: Vec<String> = Vec::new();
        proof {
            self.models.lemma_increasing();
        }
        while ids.len() < self.models.len()
            invariant
                self.models.well_formed(),
                ids@.len() <= self.models.keys().len(),
                ids@ == self.models.keys().take(ids@.len() as int),
            decreases self.models.keys().len() - ids@.len(),
        {
            let ghost count = ids@.len() as int;
            ids.push(self.models.key(ids.len()).clone());
            assert(ids@ =~= self.models.keys().take(count + 1));
        }
        assert(ids@ =~= self.models.keys());
        let mut i: usize = 0;
        while i < ids.len()
            invariant
                i <= ids@.len(),
                ids@ == old(self).models.keys(),
                self.well_formed(),
                forall|key: Seq<char>| #[trigger]
                    self.models.has(key) == old(self).models.has(key),
                forall|key: Seq<char>| #[trigger]
                    old(self).models.has(key) ==> self.models.at(key).setup() == old(
                        self,
                    ).models.at(key).setup(),
                forall|j: int|
                    0 <= j < i ==> self.models.at((#[trigger] ids@[j])@).leg() == Leg::clear(),
            decreases ids@.len() - i,
        {
            let ghost before = self.models;
            let ghost id = ids@[i as int]@;
            self.clear(ids[i].as_str());
            proof {
                assert(old(self).models.has(id)) by {
                    assert(old(self).models.keys()[i as int]@ == id);
                }
                assert forall|key: Seq<char>| #[trigger]
                    self.models.has(key) == old(self).models.has(key) by {
                    if key != id {
                        assert(alike(self.models, before, key));
                    }
                    assert(before.has(key) == old(self).models.has(key));
                }
                assert forall|key: Seq<char>| #[trigger]
                    old(self).models.has(key) implies self.models.at(key).setup() == old(
                    self,
                ).models.at(key).setup() by {
                    assert(before.has(key));
                    if key != id {
                        assert(alike(self.models, before, key));
                    }
                }
                assert forall|j: int| 0 <= j < i + 1 implies self.models.at(
                    (#[trigger] ids@[j])@,
                ).leg() == Leg::clear() by {
                    let key = ids@[j]@;
                    assert(old(self).models.has(key)) by {
                        assert(old(self).models.keys()[j]@ == key);
                    }
                    assert(before.has(key));
                    if key != id {
                        assert(alike(self.models, before, key));
                    }
                }
            }
            i = i + 1;
        }
        proof {
            assert forall|key: Seq<char>| #[trigger] old(self).models.has(key) implies {
                let model = self.models.at(key);
                model.leg() == Leg::clear() && model.setup() == old(self).models.at(key).setup()
            } by {
                let j = choose|j: int|
                    0 <= j < old(self).models.keys().len() && (
                    #[trigger] old(self).models.keys()[j])@ == key;
                assert(ids@[j]@ == key);
            }
        }
        self.targets = TextMap::new();
    }

    /// The visible targets, in the order of their legs.
    pub fn targets(&self) -> (r: Vec<TargetPosition>)
        requires
            self.well_formed(),
        ensures
            r@ == self.targets.values(),
    {
        let mut out: Vec<TargetPosition> = Vec::new();
        let mut i: usize = 0;
        proof {
            self.targets.lemma_increasing();
        }
        while i < self.targets.len()
            invariant
                i <= self.targets.keys().len(),
                self.targets.well_formed(),
                self.targets.keys().len() == self.targets.values().len(),
                out@ == self.targets.values().take(i as int),
            decreases self.targets.keys().len() - i,
        {
            out.push(self.targets.value(i).clone());
            assert(out@ =~= self.targets.values().take(i + 1));
            i = i + 1;
        }
        assert(self.targets.values().take(i as int) =~= self.targets.values());
        out
    }
}

/// Whether a history was replayed into the model of a leg.
pub open spec fn is_seeded(
    before: Portfolio,
    after: Portfolio,
    id: Seq<char>,
    history: Seq<HistoryBar>,
    r: Result<(), String>,
) -> bool {
    &&& alike_but(after.models, before.models, id)
    &&& alike_but(after.targets, before.targets, id)
    &&& after.models.has(id) == before.models.has(id)
    &&& if !before.models.has(id) {
        &&& alike(after.targets, before.targets, id)
        &&& r matches Err(message) && message@ == "no configured model for CTPD instrument "@ + id
    } else {
        let model = before.models.at(id);
        let (leg, outcome) = Leg::seeded(model.setup(), history);
        &&& after.models.at(id).leg() == leg
        &&& after.models.at(id).setup() == model.setup()
        &&& !after.targets.has(id)
        &&& match outcome {
            Ok(()) => r is Ok,
            Err(error) => r matches Err(message) && message@ == error,
        }
    }
}

/// Whether a portfolio has moved on by a tick.
pub open spec fn is_ingested(
    before: Portfolio,
    after: Portfolio,
    tick: CtpdTick,
    now_ms: i64,
    r: Result<(), String>,
) -> bool {
    let id = tick.instrument_id@;
    &&& alike_but(after.models, before.models, id)
    &&& alike_but(after.targets, before.targets, id)
    &&& after.models.has(id) == before.models.has(id)
    &&& if !before.models.has(id) {
        &&& alike(after.targets, before.targets, id)
        &&& r matches Err(message) && message@ == "no configured model for CTPD instrument "@ + id
    } else {
        let model = before.models.at(id);
        let (leg, outcome) = model.leg().ingested(model.setup(), tick, now_ms);
        &&& after.models.at(id).leg() == leg
        &&& after.models.at(id).setup() == model.setup()
        &&& match outcome {
            Ok(Some(target)) => r is Ok && after.targets.has(id) && after.targets.at(id)@
                == target,
            Ok(None) => r is Ok && !after.targets.has(id),
            Err(error) => {
                &&& alike(after.targets, before.targets, id)
                &&& r matches Err(message) && message@ == error
            },
        }
    }
}

proof fn lemma_same_map<V>(a: TextMap<V>, b: TextMap<V>)
    requires
        a.keys() == b.keys(),
        a.values() == b.values(),
    ensures
        forall|key: Seq<char>| #[trigger] alike(a, b, key),
        forall|key: Seq<char>| #[trigger] a.has(key) == b.has(key),
        forall|key: Seq<char>| #[trigger] a.at(key) == b.at(key),
{
}

/// A map in which one value was changed.
proof fn lemma_updated_map<V>(before: TextMap<V>, after: TextMap<V>, key: Seq<char>)
    requires
        before.well_formed(),
        before.has(key),
        after.keys() == before.keys(),
        exists|value: V|
            after.values() == #[trigger] before.values().update(
                ordered::place(before.keys(), key),
                value,
            ),
    ensures
        alike_but(after, before, key),
        forall|other: Seq<char>| #[trigger] after.has(other) == before.has(other),
        forall|other: Seq<char>|
            other != key && before.has(other) ==> #[trigger] after.at(other) == before.at(other),
        forall|value: V|
            after.values() == #[trigger] before.values().update(
                ordered::place(before.keys(), key),
                value,
            ) ==> after.at(key) == value,
{
    before.lemma_increasing();
    let at = ordered::place(before.keys(), key);
    assert(before.keys()[at]@ == key);
    assert forall|other: Seq<char>| other != key && before.has(other) implies #[trigger] after.at(
        other,
    ) == before.at(other) by {
        let i = ordered::place(before.keys(), other);
        assert(before.keys()[i]@ == other);
    }
    assert forall|other: Seq<char>| other != key implies #[trigger] alike(
        after,
        before,
        other,
    ) by {
        if before.has(other) {
            assert(after.at(other) == before.at(other));
        }
    }
}

/// What holds of a leg while a bar is open: nothing waits to be entered, and a
/// position ends on a later bar.
pub open spec fn sound_in_bar(leg: Leg, setup: Setup) -> bool {
    &&& 0 <= leg.completed_rows <= setup.session_bar_count
    &&& leg.pending_entry is None
    &&& leg.position matches Some(position) ==> leg.signal_seen && leg.completed_rows + 1
        < position.exit_row <= setup.session_bar_count
}

/// What holds of a leg at all times. An entry that waits is for the next bar and
/// ends inside the session; a position ends inside the session on a bar that is
/// still to come; both come from a signal.
pub open spec fn sound(leg: Leg, setup: Setup) -> bool {
    &&& 0 <= leg.completed_rows <= setup.session_bar_count
    &&& leg.pending_entry matches Some(entry) ==> {
        &&& leg.signal_seen
        &&& leg.position is None
        &&& entry.entry_row == leg.completed_rows + 1
        &&& entry.exit_row == leg.completed_rows + EXIT_OFFSET_FROM_SIGNAL
        &&& entry.exit_row <= setup.session_bar_count
    }
    &&& leg.position matches Some(position) ==> leg.signal_seen && leg.completed_rows
        < position.exit_row <= setup.session_bar_count
    &&& leg.current is Some ==> sound_in_bar(leg, setup)
}

proof fn lemma_opened_sound(leg: Leg, setup: Setup, price: Binary64)
    requires
        sound(leg, setup),
    ensures
        sound_in_bar(leg.opened(price), setup),
{
}

proof fn lemma_completed_sound(leg: Leg, setup: Setup, bar: CompletedBar)
    requires
        sound_in_bar(leg, setup),
        setup.session_bar_count <= usize::MAX,
        leg.signal_seen || leg.position is None,
        leg.current is None,
    ensures
        leg.completed(setup, bar) matches Ok(next) ==> sound(next, setup) && next.current is None,
{
}

/// Every tick keeps a leg sound: no signal is executed after the session's last
/// row that leaves room for its exit, and no position outlives its exit row.
pub proof fn law_ticks_keep_legs_sound(leg: Leg, setup: Setup, tick: CtpdTick, now_ms: i64)
    requires
        sound(leg, setup),
        0 <= setup.session_bar_count <= usize::MAX,
    ensures
        sound(leg.ingested(setup, tick, now_ms).0, setup),
{
    let fresh = Leg::on_day(tick.action_day@);
    assert(sound(fresh, setup));
    let today = if leg.action_day == Some(tick.action_day@) {
        leg
    } else {
        fresh
    };
    if let Ok(tick_ns) = tick_time(tick) {
        if let Some(endpoint_ns) = endpoint(tick_ns) {
            match today.current {
                None => {
                    lemma_opened_sound(today, setup, tick.last_price);
                },
                Some(current) => {
                    let closing = Leg { current: None, ..today };
                    lemma_completed_sound(closing, setup, current);
                    if let Ok(next) = closing.completed(setup, current) {
                        lemma_opened_sound(next, setup, tick.last_price);
                    }
                },
            }
        }
    }
}

/// Within a day a signal is taken once: after it no completed bar makes another
/// entry wait.
pub proof fn law_one_signal_a_day(leg: Leg, setup: Setup, bar: CompletedBar)
    requires
        leg.signal_seen,
    ensures
        leg.completed(setup, bar) matches Ok(next) ==> next.signal_seen && next.pending_entry
            == leg.pending_entry,
{
}

/// A state that was only restored from history shows no target: the first live
/// tick has to prove that the feed is alive.
pub proof fn law_seeded_legs_show_no_target(
    setup: Setup,
    history: Seq<HistoryBar>,
    now_ms: i64,
)
    ensures
        Leg::seeded(setup, history).0.target(setup, now_ms) == Ok::<Option<Target>, Seq<char>>(
            None,
        ),
        Leg::clear().target(setup, now_ms) == Ok::<Option<Target>, Seq<char>>(None),
{
}

/// A tick of a bar that history already holds changes nothing.
pub proof fn law_known_bars_change_nothing(leg: Leg, setup: Setup, tick: CtpdTick, now_ms: i64)
    requires
        leg.action_day == Some(tick.action_day@),
        tick_time(tick) matches Ok(tick_ns) && endpoint(tick_ns) matches Some(endpoint_ns)
            && leg.seeded_through_ns matches Some(seeded) && endpoint_ns <= seeded,
    ensures
        leg.ingested(setup, tick, now_ms).0 == leg,
        leg.ingested(setup, tick, now_ms).1 matches Ok(target) ==> target is None,
{
}

} // verus!
