//! The exposures of a replay: submitted, entered, and completed.

use super::fixed_point;
use super::{
    ComponentTrade, ExitReason, ExposureOrder, ExposureSide, FixedCapitalError, Problem,
    Quote, ScheduledFill, TimestampBar,
};
use crate::arrange;
use crate::arrange::Ranked;
use crate::binary64::Binary64;
use crate::ordered::TextSet;
use crate::text;
use vstd::prelude::*;

verus! {

/// An order that waits for the next open of its instrument.
#[derive(Clone, Debug)]
pub struct PendingExposure {
    pub order: ExposureOrder,
    pub signal_timestamp_ns: u64,
}

/// An order that was entered.
#[derive(Clone, Debug)]
pub struct ActiveExposure {
    pub pending: PendingExposure,
    pub entry_timestamp_ns: u64,
    pub entry_price: Binary64,
}

/// The three moments of a bar at which exposures are completed.
#[derive(Clone, Copy, Debug, PartialEq, Eq, Structural)]
pub enum Moment {
    Open,
    Stop,
    Close,
}

impl Moment {
    pub open spec fn reason(self) -> ExitReason {
        match self {
            Moment::Open => ExitReason::ScheduledOpen,
            Moment::Stop => ExitReason::Stop,
            Moment::Close => ExitReason::ScheduledClose,
        }
    }
}

/// The price at which an exposure is completed at a moment of a bar, if it is.
///
/// A stop that is crossed fills at its level, or at the open where the bar
/// opens beyond it.
pub open spec fn exit_price(
    active: ActiveExposure,
    moment: Moment,
    timestamp_ns: u64,
    quote: Quote,
) -> Option<Binary64> {
    let order = active.pending.order;
    if order.instrument@ != quote.instrument {
        None
    } else {
        match moment {
            Moment::Open => if order.exit.schedule() == (timestamp_ns, ScheduledFill::Open) {
                Some(quote.bar.open)
            } else {
                None
            },
            Moment::Stop => match order.exit.stop_level() {
                None => None,
                Some(level) => match order.side {
                    ExposureSide::Long => if quote.bar.low.at_most(level) {
                        Some(quote.bar.open.lesser(level))
                    } else {
                        None
                    },
                    ExposureSide::Short => if level.at_most(quote.bar.high) {
                        Some(quote.bar.open.greater(level))
                    } else {
                        None
                    },
                },
            },
            Moment::Close => if order.exit.schedule() == (timestamp_ns, ScheduledFill::Close) {
                Some(quote.bar.close)
            } else {
                None
            },
        }
    }
}

/// The return of an exposure after its proportional cost.
pub open spec fn net_value(
    side: ExposureSide,
    entry: Binary64,
    exit: Binary64,
    cost: Binary64,
) -> Binary64 {
    let one = Binary64::of_int(1);
    let direction = match side {
        ExposureSide::Long => one,
        ExposureSide::Short => Binary64::of_int(-1),
    };
    let gross = direction.product(exit.quotient(entry).difference(one));
    one.total(gross).product(one.difference(cost)).difference(one)
}

/// The trade that completes an exposure, unless a return cannot be counted.
pub open spec fn trade_of(
    active: ActiveExposure,
    timestamp_ns: u64,
    price: Binary64,
    reason: ExitReason,
) -> Option<ComponentTrade> {
    let order = active.pending.order;
    match fixed_point::units(
        net_value(order.side, active.entry_price, price, order.cost_fraction),
    ) {
        None => None,
        Some(net) => match fixed_point::units(
            fixed_point::amount(net).product(order.component_scale).product(
                order.instrument_weight,
            ),
        ) {
            None => None,
            Some(weighted) => Some(
                ComponentTrade {
                    id: order.id,
                    component: order.component,
                    instrument: order.instrument,
                    setup: order.setup,
                    signal_timestamp_ns: active.pending.signal_timestamp_ns,
                    entry_timestamp_ns: active.entry_timestamp_ns,
                    exit_timestamp_ns: timestamp_ns,
                    side: order.side,
                    entry_price: active.entry_price,
                    exit_price: price,
                    exit_reason: reason,
                    cost_fraction: order.cost_fraction,
                    component_scale: order.component_scale,
                    instrument_weight: order.instrument_weight,
                    net_return_units: net,
                    weighted_return_units: weighted,
                },
            ),
        },
    }
}

/// The exposures that stay, and the trades of those that are completed, at a
/// moment of a bar.
pub open spec fn settled(
    active: Seq<ActiveExposure>,
    moment: Moment,
    timestamp_ns: u64,
    quote: Quote,
) -> Option<(Seq<ActiveExposure>, Seq<ComponentTrade>)>
    decreases active.len(),
{
    if active.len() == 0 {
        Some((Seq::empty(), Seq::empty()))
    } else {
        match settled(active.drop_last(), moment, timestamp_ns, quote) {
            None => None,
            Some((kept, done)) => match exit_price(active.last(), moment, timestamp_ns, quote) {
                None => Some((kept.push(active.last()), done)),
                Some(price) => match trade_of(
                    active.last(),
                    timestamp_ns,
                    price,
                    moment.reason(),
                ) {
                    None => None,
                    Some(trade) => Some((kept, done.push(trade))),
                },
            },
        }
    }
}

/// The orders that still wait, and those entered at the open of a bar. An order
/// whose exit lies no later than its entry is refused.
pub open spec fn entered(
    pending: Seq<PendingExposure>,
    timestamp_ns: u64,
    quote: Quote,
) -> Result<(Seq<PendingExposure>, Seq<ActiveExposure>), Problem>
    decreases pending.len(),
{
    if pending.len() == 0 {
        Ok((Seq::empty(), Seq::empty()))
    } else {
        let last = pending.last();
        match entered(pending.drop_last(), timestamp_ns, quote) {
            Err(problem) => Err(problem),
            Ok((left, new)) => if last.order.instrument@ != quote.instrument {
                Ok((left.push(last), new))
            } else if last.order.exit.schedule().0 <= timestamp_ns {
                Err(Problem::ExitNotAfterEntry(last.order.id@))
            } else {
                Ok(
                    (
                        left,
                        new.push(
                            ActiveExposure {
                                pending: last,
                                entry_timestamp_ns: timestamp_ns,
                                entry_price: quote.bar.open,
                            },
                        ),
                    ),
                )
            },
        }
    }
}

/// What a replay holds between two events.
#[verifier::ext_equal]
pub struct Book {
    /// The identifiers that were ever used.
    pub ids: Set<Seq<char>>,
    pub pending: Seq<PendingExposure>,
    pub active: Seq<ActiveExposure>,
    pub trades: Seq<ComponentTrade>,
}

impl Book {
    pub open spec fn empty() -> Self {
        Book {
            ids: Set::empty(),
            pending: Seq::empty(),
            active: Seq::empty(),
            trades: Seq::empty(),
        }
    }

    /// The moment of one bar.
    pub open spec fn settled_on(
        self,
        moment: Moment,
        timestamp_ns: u64,
        quote: Quote,
    ) -> Result<Self, Problem> {
        match settled(self.active, moment, timestamp_ns, quote) {
            None => Err(Problem::FixedPointOverflow),
            Some((kept, done)) => Ok(Book { active: kept, trades: self.trades + done, ..self }),
        }
    }

    /// Orders that wait for the instrument of a bar are entered at its open.
    pub open spec fn entered_on(self, timestamp_ns: u64, quote: Quote) -> Result<Self, Problem> {
        match entered(self.pending, timestamp_ns, quote) {
            Err(problem) => Err(problem),
            Ok((left, new)) => Ok(Book { pending: left, active: self.active + new, ..self }),
        }
    }

    /// A moment of all the bars of a batch, in turn. At an open the scheduled
    /// exits of a bar come before its entries.
    pub open spec fn after(self, moment: Moment, timestamp_ns: u64, batch: Seq<Quote>) -> Result<
        Self,
        Problem,
    >
        decreases batch.len(),
    {
        if batch.len() == 0 {
            Ok(self)
        } else {
            match self.after(moment, timestamp_ns, batch.drop_last()) {
                Err(problem) => Err(problem),
                Ok(book) => match book.settled_on(moment, timestamp_ns, batch.last()) {
                    Err(problem) => Err(problem),
                    Ok(book) => if moment == Moment::Open {
                        book.entered_on(timestamp_ns, batch.last())
                    } else {
                        Ok(book)
                    },
                },
            }
        }
    }

    /// One order more waits.
    pub open spec fn with_order(
        self,
        instruments: Set<Seq<char>>,
        timestamp_ns: u64,
        order: ExposureOrder,
    ) -> Result<Self, Problem> {
        match refused(instruments, self.ids, timestamp_ns, order) {
            Some(problem) => Err(problem),
            None => Ok(
                Book {
                    ids: self.ids.insert(order.id@),
                    pending: self.pending.push(
                        PendingExposure { order, signal_timestamp_ns: timestamp_ns },
                    ),
                    ..self
                },
            ),
        }
    }

    /// Orders wait, one after the other.
    pub open spec fn with_orders(
        self,
        instruments: Set<Seq<char>>,
        timestamp_ns: u64,
        orders: Seq<ExposureOrder>,
    ) -> Result<Self, Problem>
        decreases orders.len(),
    {
        if orders.len() == 0 {
            Ok(self)
        } else {
            match self.with_orders(instruments, timestamp_ns, orders.drop_last()) {
                Err(problem) => Err(problem),
                Ok(book) => book.with_order(instruments, timestamp_ns, orders.last()),
            }
        }
    }
}

/// Why an order is refused, if it is.
pub open spec fn refused(
    instruments: Set<Seq<char>>,
    ids: Set<Seq<char>>,
    timestamp_ns: u64,
    order: ExposureOrder,
) -> Option<Problem> {
    let one = Binary64::of_int(1);
    if order.id@.len() == 0 || order.component@.len() == 0 || order.instrument@.len() == 0 {
        Some(Problem::InvalidOrder("id, component and instrument must be non-empty"@))
    } else if ids.contains(order.id@) {
        Some(Problem::DuplicateExposure(order.id@))
    } else if !instruments.contains(order.instrument@) {
        Some(Problem::UnknownInstrument(order.instrument@))
    } else if !order.component_scale.finite() || !order.component_scale.positive()
        || !order.instrument_weight.finite() || !order.instrument_weight.positive() {
        Some(
            Problem::InvalidOrder(
                "component_scale and instrument_weight must be positive and finite"@,
            ),
        )
    } else if !order.cost_fraction.finite() || order.cost_fraction.value() < 0 || one.at_most(
        order.cost_fraction,
    ) {
        Some(Problem::InvalidOrder("cost_fraction must be finite and in [0, 1)"@))
    } else if order.exit.schedule().0 <= timestamp_ns {
        Some(Problem::ExitNotAfterSignal(order.id@))
    } else {
        match order.exit.stop_level() {
            Some(level) => if !level.finite() || !level.positive() {
                Some(Problem::InvalidStop(order.id@))
            } else {
                None
            },
            None => None,
        }
    }
}

/// The earliest schedule below a time, by time and instrument, among the
/// exposures with a kind of fill.
pub open spec fn earliest(
    active: Seq<ActiveExposure>,
    fill: ScheduledFill,
    before_ns: int,
) -> Option<(u64, Seq<char>)>
    decreases active.len(),
{
    if active.len() == 0 {
        None
    } else {
        let best = earliest(active.drop_last(), fill, before_ns);
        let order = active.last().pending.order;
        let at = order.exit.schedule().0;
        if order.exit.schedule().1 != fill || at >= before_ns {
            best
        } else {
            match best {
                None => Some((at, order.instrument@)),
                Some((time, instrument)) => if at < time || (at == time && text::before(
                    order.instrument@,
                    instrument,
                )) {
                    Some((at, order.instrument@))
                } else {
                    best
                },
            }
        }
    }
}

/// The schedule below a time that no bar served: opens are reported first.
pub open spec fn missed(active: Seq<ActiveExposure>, before_ns: int) -> Option<Problem> {
    match earliest(active, ScheduledFill::Open, before_ns) {
        Some((timestamp_ns, instrument)) => Some(
            Problem::MissingScheduledBar { instrument, timestamp_ns },
        ),
        None => match earliest(active, ScheduledFill::Close, before_ns) {
            Some((timestamp_ns, instrument)) => Some(
                Problem::MissingScheduledBar { instrument, timestamp_ns },
            ),
            None => None,
        },
    }
}

/// One time of a replay, up to the callback: missed schedules, opens, stops.
pub open spec fn before_answer(book: Book, timestamp_ns: u64, batch: Seq<Quote>) -> Result<
    Book,
    Problem,
> {
    match missed(book.active, timestamp_ns as int) {
        Some(problem) => Err(problem),
        None => match book.after(Moment::Open, timestamp_ns, batch) {
            Err(problem) => Err(problem),
            Ok(opened) => opened.after(Moment::Stop, timestamp_ns, batch),
        },
    }
}

/// One time of a replay, from the callback on: the orders that the strategy
/// answers with, closes.
pub open spec fn after_answer(
    book: Book,
    instruments: Set<Seq<char>>,
    timestamp_ns: u64,
    batch: Seq<Quote>,
    answer: Result<Seq<ExposureOrder>, Seq<char>>,
) -> Result<Book, Problem> {
    match answer {
        Err(error) => Err(Problem::Strategy(error)),
        Ok(orders) => match book.with_orders(
            instruments,
            timestamp_ns,
            arrange::arranged(orders),
        ) {
            Err(problem) => Err(problem),
            Ok(waiting) => waiting.after(Moment::Close, timestamp_ns, batch),
        },
    }
}

/// One time of a replay.
pub open spec fn stepped(
    book: Book,
    instruments: Set<Seq<char>>,
    timestamp_ns: u64,
    batch: Seq<Quote>,
    answer: Result<Seq<ExposureOrder>, Seq<char>>,
) -> Result<Book, Problem> {
    match before_answer(book, timestamp_ns, batch) {
        Err(problem) => Err(problem),
        Ok(asked) => after_answer(asked, instruments, timestamp_ns, batch, answer),
    }
}

/// What a strategy answered.
pub open spec fn answer(given: Result<Vec<ExposureOrder>, String>) -> Result<
    Seq<ExposureOrder>,
    Seq<char>,
> {
    match given {
        Ok(orders) => Ok(orders@),
        Err(error) => Err(error@),
    }
}

/// The book after the first `count` times of a replay.
pub open spec fn replayed(
    instruments: Set<Seq<char>>,
    times: Seq<u64>,
    batches: Seq<Seq<Quote>>,
    answers: Seq<Result<Seq<ExposureOrder>, Seq<char>>>,
    count: int,
) -> Result<Book, Problem>
    decreases count,
{
    if count <= 0 {
        Ok(Book::empty())
    } else {
        match replayed(instruments, times, batches, answers, count - 1) {
            Err(problem) => Err(problem),
            Ok(book) => stepped(
                book,
                instruments,
                times[count - 1],
                batches[count - 1],
                answers[count - 1],
            ),
        }
    }
}

impl Ranked for ExposureOrder {
    open spec fn ranks_before(self, other: Self) -> bool {
        text::before(self.id@, other.id@)
    }

    proof fn lemma_ranks_asymmetric(a: Self, b: Self) {
        if text::before(a.id@, b.id@) {
            text::lemma_before_asymmetric(a.id@, b.id@);
        }
    }

    proof fn lemma_ranks_transitive(a: Self, b: Self, c: Self) {
        text::lemma_not_before_transitive(a.id@, b.id@, c.id@);
    }

    fn is_before(&self, other: &Self) -> (r: bool) {
        text::is_before(self.id.as_str(), other.id.as_str())
    }
}

/// The exposures of a replay.
pub struct ReplayState {
    instruments: TextSet,
    ids: TextSet,
    pending: Vec<PendingExposure>,
    active: Vec<ActiveExposure>,
    trades: Vec<ComponentTrade>,
}

impl View for ReplayState {
    type V = Book;

    closed spec fn view(&self) -> Book {
        Book {
            ids: self.ids.members(),
            pending: self.pending@,
            active: self.active@,
            trades: self.trades@,
        }
    }
}

impl ReplayState {
    pub closed spec fn instruments(self) -> Set<Seq<char>> {
        self.instruments.members()
    }

    pub closed spec fn well_formed(self) -> bool {
        self.instruments.well_formed() && self.ids.well_formed()
    }

    pub fn new(instruments: TextSet) -> (r: Self)
        requires
            instruments.well_formed(),
        ensures
            r.well_formed(),
            r.instruments() == instruments.members(),
            r@ == Book::empty(),
    {
        let r = ReplayState {
            instruments,
            ids: TextSet::new(),
            pending: Vec::new(),
            active: Vec::new(),
            trades: Vec::new(),
        };
        assert(r.ids.members() =~= Set::<Seq<char>>::empty());
        r
    }

    /// Completes the exposure at a place.
    fn complete(
        &mut self,
        index: usize,
        timestamp_ns: u64,
        exit_price: Binary64,
        reason: ExitReason,
    ) -> (r: Result<(), FixedCapitalError>)
        requires
            old(self).well_formed(),
            index < old(self)@.active.len(),
        ensures
            match trade_of(old(self)@.active[index as int], timestamp_ns, exit_price, reason) {
                None => r matches Err(error) && error@ == Problem::FixedPointOverflow,
                Some(trade) => {
                    &&& r is Ok
                    &&& final(self).well_formed()
                    &&& final(self).instruments() == old(self).instruments()
                    &&& final(self)@ == (Book {
                        active: old(self)@.active.remove(index as int),
                        trades: old(self)@.trades.push(trade),
                        ..old(self)@
                    })
                },
            },
    {
        let active: ActiveExposure = self.active.remove(index);
        let order: ExposureOrder = active.pending.order;
        let one: Binary64 = Binary64::from_i64(1);
        let direction: Binary64 = match order.side {
            ExposureSide::Long => one,
            ExposureSide::Short => Binary64::from_i64(-1),
        };
        let gross: Binary64 = direction.times(exit_price.over(active.entry_price).minus(one));
        let net_units: i64 = fixed_point::to_fixed(
            one.plus(gross).times(one.minus(order.cost_fraction)).minus(one),
        )?;
        let net: Binary64 = fixed_point::from_fixed(net_units);
        let weighted_units: i64 = fixed_point::to_fixed(
            net.times(order.component_scale).times(order.instrument_weight),
        )?;
        self.trades.push(
            ComponentTrade {
                id: order.id,
                component: order.component,
                instrument: order.instrument,
                setup: order.setup,
                signal_timestamp_ns: active.pending.signal_timestamp_ns,
                entry_timestamp_ns: active.entry_timestamp_ns,
                exit_timestamp_ns: timestamp_ns,
                side: order.side,
                entry_price: active.entry_price,
                exit_price,
                exit_reason: reason,
                cost_fraction: order.cost_fraction,
                component_scale: order.component_scale,
                instrument_weight: order.instrument_weight,
                net_return_units: net_units,
                weighted_return_units: weighted_units,
            },
        );
        Ok(())
    }

    /// The price at which an exposure is completed at a moment of a bar.
    fn exit_price_of(
        active: &ActiveExposure,
        moment: Moment,
        timestamp_ns: u64,
        value: &TimestampBar<'_>,
    ) -> (r: Option<Binary64>)
        ensures
            r == exit_price(*active, moment, timestamp_ns, value.quote()),
    {
        let order: &ExposureOrder = &active.pending.order;
        if !text::same(order.instrument.as_str(), value.instrument) {
            return None;
        }
        match moment {
            Moment::Open => {
                let (at, fill): (u64, ScheduledFill) = order.exit.scheduled();
                if at == timestamp_ns && fill == ScheduledFill::Open {
                    Some(value.bar.open)
                } else {
                    None
                }
            },
            Moment::Stop => match order.exit.stop() {
                None => None,
                Some(level) => match order.side {
                    ExposureSide::Long => if value.bar.low.is_at_most(level) {
                        Some(value.bar.open.min(level))
                    } else {
                        None
                    },
                    ExposureSide::Short => if level.is_at_most(value.bar.high) {
                        Some(value.bar.open.max(level))
                    } else {
                        None
                    },
                },
            },
            Moment::Close => {
                let (at, fill): (u64, ScheduledFill) = order.exit.scheduled();
                if at == timestamp_ns && fill == ScheduledFill::Close {
                    Some(value.bar.close)
                } else {
                    None
                }
            },
        }
    }

    /// Completes the exposures that end at a moment of a bar.
    fn settle(&mut self, moment: Moment, timestamp_ns: u64, value: &TimestampBar<'_>) -> (r: Result<
        (),
        FixedCapitalError,
    >)
        requires
            old(self).well_formed(),
        ensures
            match old(self)@.settled_on(moment, timestamp_ns, value.quote()) {
                Err(problem) => r matches Err(error) && error@ == problem,
                Ok(book) => {
                    &&& r is Ok
                    &&& final(self).well_formed()
                    &&& final(self).instruments() == old(self).instruments()
                    &&& final(self)@ == book
                },
            },
    {
        let ghost all = self.active@;
        let ghost quote = value.quote();
        let ghost mut seen: int = 0;
        let ghost mut kept: Seq<ActiveExposure> = Seq::empty();
        let ghost mut done: Seq<ComponentTrade> = Seq::empty();
        let mut i: usize = 0;
        let reason: ExitReason = match moment {
            Moment::Open => ExitReason::ScheduledOpen,
            Moment::Stop => ExitReason::Stop,
            Moment::Close => ExitReason::ScheduledClose,
        };
        proof {
            assert(all.take(0) =~= Seq::<ActiveExposure>::empty());
            assert(self.active@ =~= kept + all.skip(0));
            assert(self.trades@ =~= old(self).trades@ + done);
        }
        while i < self.active.len()
            invariant
                self.well_formed(),
                self.instruments() == old(self).instruments(),
                quote == value.quote(),
                reason == moment.reason(),
                0 <= seen <= all.len(),
                i == kept.len(),
                settled(all.take(seen), moment, timestamp_ns, quote) == Some((kept, done)),
                self@.active == kept + all.skip(seen),
                self@.trades == old(self)@.trades + done,
                self@.pending == old(self)@.pending,
                self@.ids == old(self)@.ids,
                all == old(self)@.active,
            decreases all.len() - seen,
        {
            proof {
                assert(self@.active[i as int] == all[seen]);
                assert(all.take(seen + 1).drop_last() =~= all.take(seen));
            }
            match Self::exit_price_of(&self.active[i], moment, timestamp_ns, value) {
                None => {
                    proof {
                        kept = kept.push(all[seen]);
                        assert(self@.active =~= kept + all.skip(seen + 1));
                    }
                    i = i + 1;
                },
                Some(price) => {
                    let ghost before = self@;
                    match self.complete(i, timestamp_ns, price, reason) {
                        Err(error) => {
                            proof {
                                lemma_settled_fails(
                                    all,
                                    moment,
                                    timestamp_ns,
                                    quote,
                                    seen + 1,
                                );
                            }
                            return Err(error);
                        },
                        Ok(()) => {
                            proof {
                                done = done.push(self@.trades.last());
                                assert(self@.trades =~= old(self)@.trades + done);
                                assert(self@.active =~= kept + all.skip(seen + 1));
                            }
                        },
                    }
                },
            }
            proof {
                seen = seen + 1;
            }
        }
        proof {
            assert(all.take(all.len() as int) =~= all);
            assert(self@.active =~= kept);
        }
        Ok(())
    }

    /// Enters the orders that wait for the instrument of a bar, at its open.
    fn enter(&mut self, timestamp_ns: u64, value: &TimestampBar<'_>) -> (r: Result<
        (),
        FixedCapitalError,
    >)
        requires
            old(self).well_formed(),
        ensures
            match old(self)@.entered_on(timestamp_ns, value.quote()) {
                Err(problem) => r matches Err(error) && error@ == problem,
                Ok(book) => {
                    &&& r is Ok
                    &&& final(self).well_formed()
                    &&& final(self).instruments() == old(self).instruments()
                    &&& final(self)@ == book
                },
            },
    {
        let ghost all = self.pending@;
        let ghost quote = value.quote();
        let ghost mut seen: int = 0;
        let ghost mut left: Seq<PendingExposure> = Seq::empty();
        let ghost mut new: Seq<ActiveExposure> = Seq::empty();
        let mut i: usize = 0;
        proof {
            assert(all.take(0) =~= Seq::<PendingExposure>::empty());
            assert(self.pending@ =~= left + all.skip(0));
            assert(self.active@ =~= old(self).active@ + new);
        }
        while i < self.pending.len()
            invariant
                self.well_formed(),
                self.instruments() == old(self).instruments(),
                quote == value.quote(),
                0 <= seen <= all.len(),
                i == left.len(),
                entered(all.take(seen), timestamp_ns, quote) == Ok::<
                    (Seq<PendingExposure>, Seq<ActiveExposure>),
                    Problem,
                >((left, new)),
                self@.pending == left + all.skip(seen),
                self@.active == old(self)@.active + new,
                self@.trades == old(self)@.trades,
                self@.ids == old(self)@.ids,
                all == old(self)@.pending,
            decreases all.len() - seen,
        {
            proof {
                assert(self@.pending[i as int] == all[seen]);
                assert(all.take(seen + 1).drop_last() =~= all.take(seen));
            }
            if text::same(self.pending[i].order.instrument.as_str(), value.instrument) {
                let pending: PendingExposure = self.pending.remove(i);
                match self.activate(pending, timestamp_ns, value.bar.open) {
                    Err(error) => {
                        proof {
                            lemma_entered_fails(all, timestamp_ns, quote, seen + 1);
                        }
                        return Err(error);
                    },
                    Ok(()) => {
                        proof {
                            new = new.push(self@.active.last());
                            assert(self@.active =~= old(self)@.active + new);
                            assert(self@.pending =~= left + all.skip(seen + 1));
                        }
                    },
                }
            } else {
                proof {
                    left = left.push(all[seen]);
                    assert(self@.pending =~= left + all.skip(seen + 1));
                }
                i = i + 1;
            }
            proof {
                seen = seen + 1;
            }
        }
        proof {
            assert(all.take(all.len() as int) =~= all);
            assert(self@.pending =~= left);
        }
        Ok(())
    }

    fn activate(&mut self, pending: PendingExposure, timestamp_ns: u64, price: Binary64) -> (r:
        Result<(), FixedCapitalError>)
        requires
            old(self).well_formed(),
        ensures
            if pending.order.exit.schedule().0 <= timestamp_ns {
                r matches Err(error) && error@ == Problem::ExitNotAfterEntry(pending.order.id@)
            } else {
                &&& r is Ok
                &&& final(self).well_formed()
                &&& final(self).instruments() == old(self).instruments()
                &&& final(self)@ == (Book {
                    active: old(self)@.active.push(
                        ActiveExposure {
                            pending,
                            entry_timestamp_ns: timestamp_ns,
                            entry_price: price,
                        },
                    ),
                    ..old(self)@
                })
            },
    {
        if pending.order.exit.scheduled().0 <= timestamp_ns {
            return Err(FixedCapitalError::ExitNotAfterEntry(pending.order.id));
        }
        self.active.push(
            ActiveExposure { pending, entry_timestamp_ns: timestamp_ns, entry_price: price },
        );
        Ok(())
    }

    /// The scheduled exits and the entries at the opens of a batch.
    pub fn process_open(&mut self, timestamp_ns: u64, bars: &[TimestampBar<'_>]) -> (r: Result<
        (),
        FixedCapitalError,
    >)
        requires
            old(self).well_formed(),
        ensures
            match old(self)@.after(Moment::Open, timestamp_ns, super::quotes(bars@)) {
                Err(problem) => r matches Err(error) && error@ == problem,
                Ok(book) => {
                    &&& r is Ok
                    &&& final(self).well_formed()
                    &&& final(self).instruments() == old(self).instruments()
                    &&& final(self)@ == book
                },
            },
    {
        let ghost batch = super::quotes(bars@);
        let mut i: usize = 0;
        assert(batch.take(0) =~= Seq::<Quote>::empty());
        while i < bars.len()
            invariant
                i <= bars@.len(),
                batch == super::quotes(bars@),
                self.well_formed(),
                self.instruments() == old(self).instruments(),
                old(self)@.after(Moment::Open, timestamp_ns, batch.take(i as int)) == Ok::<
                    Book,
                    Problem,
                >(self@),
            decreases bars@.len() - i,
        {
            proof {
                assert(batch.take(i + 1).drop_last() =~= batch.take(i as int));
                assert(batch[i as int] == bars@[i as int].quote());
            }
            match self.settle(Moment::Open, timestamp_ns, &bars[i]) {
                Err(error) => {
                    proof {
                        lemma_after_fails(old(self)@, Moment::Open, timestamp_ns, batch, i + 1);
                    }
                    return Err(error);
                },
                Ok(()) => {},
            }
            match self.enter(timestamp_ns, &bars[i]) {
                Err(error) => {
                    proof {
                        lemma_after_fails(old(self)@, Moment::Open, timestamp_ns, batch, i + 1);
                    }
                    return Err(error);
                },
                Ok(()) => {},
            }
            i = i + 1;
        }
        assert(batch.take(batch.len() as int) =~= batch);
        Ok(())
    }

    /// The exposures that a batch ends at a moment after its opens.
    fn process(&mut self, moment: Moment, timestamp_ns: u64, bars: &[TimestampBar<'_>]) -> (r:
        Result<(), FixedCapitalError>)
        requires
            old(self).well_formed(),
            moment != Moment::Open,
        ensures
            match old(self)@.after(moment, timestamp_ns, super::quotes(bars@)) {
                Err(problem) => r matches Err(error) && error@ == problem,
                Ok(book) => {
                    &&& r is Ok
                    &&& final(self).well_formed()
                    &&& final(self).instruments() == old(self).instruments()
                    &&& final(self)@ == book
                },
            },
    {
        let ghost batch = super::quotes(bars@);
        let mut i: usize = 0;
        assert(batch.take(0) =~= Seq::<Quote>::empty());
        while i < bars.len()
            invariant
                i <= bars@.len(),
                moment != Moment::Open,
                batch == super::quotes(bars@),
                self.well_formed(),
                self.instruments() == old(self).instruments(),
                old(self)@.after(moment, timestamp_ns, batch.take(i as int)) == Ok::<
                    Book,
                    Problem,
                >(self@),
            decreases bars@.len() - i,
        {
            proof {
                assert(batch.take(i + 1).drop_last() =~= batch.take(i as int));
                assert(batch[i as int] == bars@[i as int].quote());
            }
            match self.settle(moment, timestamp_ns, &bars[i]) {
                Err(error) => {
                    proof {
                        lemma_after_fails(old(self)@, moment, timestamp_ns, batch, i + 1);
                    }
                    return Err(error);
                },
                Ok(()) => {},
            }
            i = i + 1;
        }
        assert(batch.take(batch.len() as int) =~= batch);
        Ok(())
    }

    /// The stops that the bars of a batch cross.
    pub fn process_stops(&mut self, timestamp_ns: u64, bars: &[TimestampBar<'_>]) -> (r: Result<
        (),
        FixedCapitalError,
    >)
        requires
            old(self).well_formed(),
        ensures
            match old(self)@.after(Moment::Stop, timestamp_ns, super::quotes(bars@)) {
                Err(problem) => r matches Err(error) && error@ == problem,
                Ok(book) => {
                    &&& r is Ok
                    &&& final(self).well_formed()
                    &&& final(self).instruments() == old(self).instruments()
                    &&& final(self)@ == book
                },
            },
    {
        self.process(Moment::Stop, timestamp_ns, bars)
    }

    /// The scheduled exits at the closes of a batch.
    pub fn process_close(&mut self, timestamp_ns: u64, bars: &[TimestampBar<'_>]) -> (r: Result<
        (),
        FixedCapitalError,
    >)
        requires
            old(self).well_formed(),
        ensures
            match old(self)@.after(Moment::Close, timestamp_ns, super::quotes(bars@)) {
                Err(problem) => r matches Err(error) && error@ == problem,
                Ok(book) => {
                    &&& r is Ok
                    &&& final(self).well_formed()
                    &&& final(self).instruments() == old(self).instruments()
                    &&& final(self)@ == book
                },
            },
    {
        self.process(Moment::Close, timestamp_ns, bars)
    }

    /// Takes the orders of a strategy, in the order of their identifiers.
    pub fn submit(&mut self, timestamp_ns: u64, orders: Vec<ExposureOrder>) -> (r: Result<
        (),
        FixedCapitalError,
    >)
        requires
            old(self).well_formed(),
        ensures
            match old(self)@.with_orders(
                old(self).instruments(),
                timestamp_ns,
                arrange::arranged(orders@),
            ) {
                Err(problem) => r matches Err(error) && error@ == problem,
                Ok(book) => {
                    &&& r is Ok
                    &&& final(self).well_formed()
                    &&& final(self).instruments() == old(self).instruments()
                    &&& final(self)@ == book
                },
            },
    {
        let queue: Vec<ExposureOrder> = arrange::arrange(orders);
        let ghost all = queue@;
        let ghost known = self.instruments();
        assert(all.take(0) =~= Seq::<ExposureOrder>::empty());
        for order in it: queue
            invariant
                it.seq() == all,
                all == arrange::arranged(orders@),
                self.well_formed(),
                self.instruments() == known,
                known == old(self).instruments(),
                old(self)@.with_orders(known, timestamp_ns, all.take(it.index())) == Ok::<
                    Book,
                    Problem,
                >(self@),
        {
            proof {
                assert(all.take(it.index() + 1).drop_last() =~= all.take(it.index()));
                assert(order == all[it.index()]);
            }
            match validate_order(timestamp_ns, &self.instruments, &self.ids, &order) {
                Err(error) => {
                    proof {
                        lemma_orders_fail(old(self)@, known, timestamp_ns, all, it.index() + 1);
                    }
                    return Err(error);
                },
                Ok(()) => {},
            }
            let ghost before = self@;
            let _new: bool = self.ids.insert(order.id.clone());
            self.pending.push(PendingExposure { order, signal_timestamp_ns: timestamp_ns });
            assert(self@.ids =~= before.ids.insert(order.id@));
        }
        assert(all.take(all.len() as int) =~= all);
        Ok(())
    }

    /// The earliest schedule below a time among the exposures with a kind of
    /// fill: the place of an exposure that has it.
    fn earliest_schedule(&self, fill: ScheduledFill, before_ns: u128) -> (r: Option<usize>)
        ensures
            match r {
                None => earliest(self@.active, fill, before_ns as int) is None,
                Some(i) => i < self@.active.len() && earliest(self@.active, fill, before_ns as int)
                    == Some(
                    (
                        self@.active[i as int].pending.order.exit.schedule().0,
                        self@.active[i as int].pending.order.instrument@,
                    ),
                ),
            },
    {
        let mut best: Option<usize> = None;
        let mut i: usize = 0;
        let ghost all = self@.active;
        assert(all.take(0) =~= Seq::<ActiveExposure>::empty());
        while i < self.active.len()
            invariant
                i <= self.active@.len(),
                all == self@.active,
                all == self.active@,
                match best {
                    None => earliest(all.take(i as int), fill, before_ns as int) is None,
                    Some(b) => b < i && earliest(all.take(i as int), fill, before_ns as int)
                        == Some(
                        (
                            all[b as int].pending.order.exit.schedule().0,
                            all[b as int].pending.order.instrument@,
                        ),
                    ),
                },
            decreases self.active@.len() - i,
        {
            proof {
                assert(all.take(i + 1).drop_last() =~= all.take(i as int));
            }
            let order: &ExposureOrder = &self.active[i].pending.order;
            let (at, kind): (u64, ScheduledFill) = order.exit.scheduled();
            if kind == fill && (at as u128) < before_ns {
                match best {
                    None => {
                        best = Some(i);
                    },
                    Some(b) => {
                        let other: &ExposureOrder = &self.active[b].pending.order;
                        let time: u64 = other.exit.scheduled().0;
                        if at < time || (at == time && text::is_before(
                            order.instrument.as_str(),
                            other.instrument.as_str(),
                        )) {
                            best = Some(i);
                        }
                    },
                }
            }
            i = i + 1;
        }
        assert(all.take(all.len() as int) =~= all);
        best
    }

    fn reject_schedules_below(&self, before_ns: u128) -> (r: Result<(), FixedCapitalError>)
        ensures
            match missed(self@.active, before_ns as int) {
                Some(problem) => r matches Err(error) && error@ == problem,
                None => r is Ok,
            },
    {
        let found: Option<usize> = match self.earliest_schedule(ScheduledFill::Open, before_ns) {
            Some(i) => Some(i),
            None => self.earliest_schedule(ScheduledFill::Close, before_ns),
        };
        match found {
            None => Ok(()),
            Some(i) => {
                let order: &ExposureOrder = &self.active[i].pending.order;
                Err(
                    FixedCapitalError::MissingScheduledBar {
                        instrument: order.instrument.clone(),
                        timestamp_ns: order.exit.scheduled().0,
                    },
                )
            },
        }
    }

    /// Takes a time in, up to the callback of the strategy.
    pub fn before_callback(&mut self, timestamp_ns: u64, bars: &[TimestampBar<'_>]) -> (r: Result<
        (),
        FixedCapitalError,
    >)
        requires
            old(self).well_formed(),
        ensures
            match before_answer(old(self)@, timestamp_ns, super::quotes(bars@)) {
                Err(problem) => r matches Err(error) && error@ == problem,
                Ok(book) => {
                    &&& r is Ok
                    &&& final(self).well_formed()
                    &&& final(self).instruments() == old(self).instruments()
                    &&& final(self)@ == book
                },
            },
    {
        self.reject_missed_schedules(timestamp_ns)?;
        self.process_open(timestamp_ns, bars)?;
        self.process_stops(timestamp_ns, bars)
    }

    /// Takes the answer of the strategy in, and ends the time.
    pub fn after_callback(
        &mut self,
        timestamp_ns: u64,
        bars: &[TimestampBar<'_>],
        reply: Result<Vec<ExposureOrder>, String>,
    ) -> (r: Result<(), FixedCapitalError>)
        requires
            old(self).well_formed(),
        ensures
            match after_answer(
                old(self)@,
                old(self).instruments(),
                timestamp_ns,
                super::quotes(bars@),
                answer(reply),
            ) {
                Err(problem) => r matches Err(error) && error@ == problem,
                Ok(book) => {
                    &&& r is Ok
                    &&& final(self).well_formed()
                    &&& final(self).instruments() == old(self).instruments()
                    &&& final(self)@ == book
                },
            },
    {
        match reply {
            Err(message) => Err(FixedCapitalError::Strategy(message)),
            Ok(orders) => {
                self.submit(timestamp_ns, orders)?;
                self.process_close(timestamp_ns, bars)
            },
        }
    }

    /// What waits, what is entered, and what is completed.
    pub fn into_parts(self) -> (r: (
        Vec<PendingExposure>,
        Vec<ActiveExposure>,
        Vec<ComponentTrade>,
    ))
        ensures
            r.0@ == self@.pending,
            r.1@ == self@.active,
            r.2@ == self@.trades,
    {
        (self.pending, self.active, self.trades)
    }

    /// Fails where a schedule lies before a time.
    pub fn reject_missed_schedules(&self, timestamp_ns: u64) -> (r: Result<(), FixedCapitalError>)
        ensures
            match missed(self@.active, timestamp_ns as int) {
                Some(problem) => r matches Err(error) && error@ == problem,
                None => r is Ok,
            },
    {
        self.reject_schedules_below(timestamp_ns as u128)
    }

    /// Fails where a schedule lies no later than a time.
    pub fn reject_schedules_at_or_before(&self, timestamp_ns: u64) -> (r: Result<
        (),
        FixedCapitalError,
    >)
        ensures
            match missed(self@.active, timestamp_ns + 1) {
                Some(problem) => r matches Err(error) && error@ == problem,
                None => r is Ok,
            },
    {
        self.reject_schedules_below(timestamp_ns as u128 + 1)
    }
}

proof fn lemma_settled_fails(
    active: Seq<ActiveExposure>,
    moment: Moment,
    timestamp_ns: u64,
    quote: Quote,
    count: int,
)
    requires
        0 <= count <= active.len(),
        settled(active.take(count), moment, timestamp_ns, quote) is None,
    ensures
        settled(active, moment, timestamp_ns, quote) is None,
    decreases active.len(),
{
    if count == active.len() {
        assert(active.take(count) =~= active);
    } else {
        assert(active.drop_last().take(count) =~= active.take(count));
        lemma_settled_fails(active.drop_last(), moment, timestamp_ns, quote, count);
    }
}

proof fn lemma_entered_fails(
    pending: Seq<PendingExposure>,
    timestamp_ns: u64,
    quote: Quote,
    count: int,
)
    requires
        0 <= count <= pending.len(),
        entered(pending.take(count), timestamp_ns, quote) is Err,
    ensures
        entered(pending, timestamp_ns, quote) == entered(
            pending.take(count),
            timestamp_ns,
            quote,
        ),
    decreases pending.len(),
{
    if count == pending.len() {
        assert(pending.take(count) =~= pending);
    } else {
        assert(pending.drop_last().take(count) =~= pending.take(count));
        lemma_entered_fails(pending.drop_last(), timestamp_ns, quote, count);
    }
}

proof fn lemma_after_fails(
    book: Book,
    moment: Moment,
    timestamp_ns: u64,
    batch: Seq<Quote>,
    count: int,
)
    requires
        0 <= count <= batch.len(),
        book.after(moment, timestamp_ns, batch.take(count)) is Err,
    ensures
        book.after(moment, timestamp_ns, batch) == book.after(
            moment,
            timestamp_ns,
            batch.take(count),
        ),
    decreases batch.len(),
{
    if count == batch.len() {
        assert(batch.take(count) =~= batch);
    } else {
        assert(batch.drop_last().take(count) =~= batch.take(count));
        lemma_after_fails(book, moment, timestamp_ns, batch.drop_last(), count);
    }
}

proof fn lemma_orders_fail(
    book: Book,
    instruments: Set<Seq<char>>,
    timestamp_ns: u64,
    orders: Seq<ExposureOrder>,
    count: int,
)
    requires
        0 <= count <= orders.len(),
        book.with_orders(instruments, timestamp_ns, orders.take(count)) is Err,
    ensures
        book.with_orders(instruments, timestamp_ns, orders) == book.with_orders(
            instruments,
            timestamp_ns,
            orders.take(count),
        ),
    decreases orders.len(),
{
    if count == orders.len() {
        assert(orders.take(count) =~= orders);
    } else {
        assert(orders.drop_last().take(count) =~= orders.take(count));
        lemma_orders_fail(book, instruments, timestamp_ns, orders.drop_last(), count);
    }
}

fn validate_order(
    timestamp_ns: u64,
    instruments: &TextSet,
    ids: &TextSet,
    order: &ExposureOrder,
) -> (r: Result<(), FixedCapitalError>)
    requires
        instruments.well_formed(),
        ids.well_formed(),
    ensures
        match refused(instruments.members(), ids.members(), timestamp_ns, *order) {
            Some(problem) => r matches Err(error) && error@ == problem,
            None => r is Ok,
        },
{
    if order.id.as_str().is_empty() || order.component.as_str().is_empty()
        || order.instrument.as_str().is_empty() {
        return Err(
            FixedCapitalError::InvalidOrder(
                "id, component and instrument must be non-empty".to_owned(),
            ),
        );
    }
    if ids.contains(order.id.as_str()) {
        return Err(FixedCapitalError::DuplicateExposure(order.id.clone()));
    }
    if !instruments.contains(order.instrument.as_str()) {
        return Err(FixedCapitalError::UnknownInstrument(order.instrument.clone()));
    }
    if !order.component_scale.is_finite() || !order.component_scale.is_positive()
        || !order.instrument_weight.is_finite() || !order.instrument_weight.is_positive() {
        return Err(
            FixedCapitalError::InvalidOrder(
                "component_scale and instrument_weight must be positive and finite".to_owned(),
            ),
        );
    }
    if !order.cost_fraction.is_finite() || order.cost_fraction.is_below_zero()
        || Binary64::from_i64(1).is_at_most(order.cost_fraction) {
        return Err(
            FixedCapitalError::InvalidOrder(
                "cost_fraction must be finite and in [0, 1)".to_owned(),
            ),
        );
    }
    if order.exit.scheduled().0 <= timestamp_ns {
        return Err(FixedCapitalError::ExitNotAfterSignal(order.id.clone()));
    }
    if let Some(stop) = order.exit.stop() {
        if !stop.is_finite() || !stop.is_positive() {
            return Err(FixedCapitalError::InvalidStop(order.id.clone()));
        }
    }
    Ok(())
}

} // verus!
