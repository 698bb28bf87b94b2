//! What holds of every replay of a strategy: when it is asked, what becomes of
//! its orders, and what later bars cannot reach.

use super::laws;
use super::replay;
use super::replay::{ActiveExposure, Book, Moment, PendingExposure};
use super::run;
use super::run::FixedCapitalResult;
use super::timeline;
use super::{
    CensoredExposure, ComponentTrade, ExposureOrder, FixedCapitalStrategy, HistoryBar,
    InstrumentHistory, Quote, TradingDay,
};
use crate::arrange;
use crate::binary64::Binary64;
use vstd::prelude::*;

verus! {

/// A replay of a strategy that came to a result, with all that was told in it.
pub struct Record<S> {
    pub result: FixedCapitalResult,
    /// What the strategy was at the beginning and at the end.
    pub before: S,
    pub after: S,
    pub days: Seq<TradingDay>,
    pub configured: Option<Seq<String>>,
    pub histories: Seq<InstrumentHistory>,
    pub data_size_bytes: u64,
    pub times: Seq<u64>,
    pub batches: Seq<Seq<Quote>>,
    pub answers: Seq<Result<Seq<ExposureOrder>, Seq<char>>>,
    pub states: Seq<S>,
}

impl<S: FixedCapitalStrategy> Record<S> {
    /// Whether the replay took place so.
    pub open spec fn took_place(self) -> bool {
        run::is_run(
            Ok(self.result),
            self.before,
            self.after,
            self.days,
            self.configured,
            self.histories,
            self.data_size_bytes,
            self.times,
            self.batches,
            self.answers,
            self.states,
        )
    }
}

/// Where a replay went well, nothing went wrong at any time of it.
proof fn lemma_all_asked(
    instruments: Set<Seq<char>>,
    times: Seq<u64>,
    batches: Seq<Seq<Quote>>,
    answers: Seq<Result<Seq<ExposureOrder>, Seq<char>>>,
    count: int,
    i: int,
)
    requires
        replay::replayed(instruments, times, batches, answers, count) is Ok,
        0 <= i < count,
    ensures
        run::asked(instruments, times, batches, answers, i),
        answers[i] is Ok,
        replay::replayed(instruments, times, batches, answers, i) is Ok,
        replay::replayed(instruments, times, batches, answers, i + 1) is Ok,
    decreases count,
{
    if i < count - 1 {
        lemma_all_asked(instruments, times, batches, answers, count - 1, i);
    }
}

/// A replay that comes to a result has asked the strategy exactly once for every
/// time at which a bar stands, in order, and has shown it exactly the bars of
/// that time.
pub proof fn law_strategy_is_asked_at_every_time<S: FixedCapitalStrategy>(record: Record<S>)
    requires
        record.took_place(),
    ensures
        timeline::is_timeline(record.times, record.histories),
        record.result.bars == timeline::total_bars(record.histories),
        record.states.len() == record.times.len() + 1,
        record.states[0] == record.before,
        record.states.last() == record.after,
        forall|i: int|
            0 <= i < record.times.len() ==> {
                &&& timeline::is_batch(
                    #[trigger] record.batches[i],
                    record.histories,
                    record.times[i],
                )
                &&& S::answers(
                    record.states[i],
                    record.times[i],
                    record.batches[i],
                    record.states[i + 1],
                    record.answers[i],
                )
                &&& record.answers[i] is Ok
            },
{
    let histories = record.histories;
    let times = record.times;
    let batches = record.batches;
    let answers = record.answers;
    let states = record.states;
    assert forall|i: int| 0 <= i < times.len() implies {
        &&& timeline::is_batch(#[trigger] batches[i], histories, times[i])
        &&& S::answers(states[i], times[i], batches[i], states[i + 1], answers[i])
        &&& answers[i] is Ok
    } by {
        lemma_all_asked(
            run::known(histories),
            times,
            batches,
            answers,
            times.len() as int,
            i,
        );
        assert(run::is_answered(
            run::known(histories),
            times,
            batches,
            answers,
            states,
            i,
        ));
    }
}

/// Whether an order was given among the first `count` answers, at a time.
pub open spec fn emitted(
    times: Seq<u64>,
    answers: Seq<Result<Seq<ExposureOrder>, Seq<char>>>,
    count: int,
    order: ExposureOrder,
    signal_ns: u64,
) -> bool {
    exists|i: int, j: int|
        0 <= i < count && times[i] == signal_ns && answers[i] is Ok && 0 <= j
            < answers[i]->Ok_0.len() && #[trigger] answers[i]->Ok_0[j] == order
}

/// Whether an instrument has a bar.
pub open spec fn has_bar(
    histories: Seq<InstrumentHistory>,
    instrument: Seq<char>,
    bar: HistoryBar,
) -> bool {
    exists|h: int|
        0 <= h < histories.len() && (#[trigger] histories[h]).instrument@ == instrument
            && timeline::holds(histories[h], bar)
}

/// Whether an instrument has no bar after a time and before another.
pub open spec fn quiet(
    histories: Seq<InstrumentHistory>,
    instrument: Seq<char>,
    from_ns: u64,
    before_ns: int,
) -> bool {
    forall|bar: HistoryBar| #[trigger]
        has_bar(histories, instrument, bar) && from_ns < bar.timestamp_ns ==> bar.timestamp_ns
            >= before_ns
}

/// Whether an instrument's first bar after a signal stands at a time and opens at
/// a price.
pub open spec fn opens_next(
    histories: Seq<InstrumentHistory>,
    instrument: Seq<char>,
    signal_ns: u64,
    entry_ns: u64,
    price: Binary64,
) -> bool {
    &&& signal_ns < entry_ns
    &&& quiet(histories, instrument, signal_ns, entry_ns as int)
    &&& exists|bar: HistoryBar| #[trigger]
        has_bar(histories, instrument, bar) && bar.timestamp_ns == entry_ns && bar.open == price
}

/// Whether a trade completes an exposure.
pub open spec fn completes(trade: ComponentTrade, active: ActiveExposure) -> bool {
    let order = active.pending.order;
    &&& trade.id == order.id
    &&& trade.component == order.component
    &&& trade.instrument == order.instrument
    &&& trade.setup == order.setup
    &&& trade.side == order.side
    &&& trade.cost_fraction == order.cost_fraction
    &&& trade.component_scale == order.component_scale
    &&& trade.instrument_weight == order.instrument_weight
    &&& trade.signal_timestamp_ns == active.pending.signal_timestamp_ns
    &&& trade.entry_timestamp_ns == active.entry_timestamp_ns
    &&& trade.entry_price == active.entry_price
}

/// Whether a trade completes an exposure of which something holds.
spec fn comes_from(trade: ComponentTrade, q: spec_fn(ActiveExposure) -> bool) -> bool {
    exists|active: ActiveExposure| #[trigger] q(active) && completes(trade, active)
}

/// Whether something holds of all that waits, and something of all that was
/// entered.
spec fn all_hold(
    book: Book,
    p: spec_fn(PendingExposure) -> bool,
    q: spec_fn(ActiveExposure) -> bool,
) -> bool {
    &&& forall|i: int| 0 <= i < book.pending.len() ==> p(#[trigger] book.pending[i])
    &&& forall|i: int| 0 <= i < book.active.len() ==> q(#[trigger] book.active[i])
    &&& forall|i: int| 0 <= i < book.trades.len() ==> comes_from(#[trigger] book.trades[i], q)
}

proof fn lemma_settled_hold(
    active: Seq<ActiveExposure>,
    moment: Moment,
    now: u64,
    quote: Quote,
    q: spec_fn(ActiveExposure) -> bool,
)
    requires
        forall|i: int| 0 <= i < active.len() ==> q(#[trigger] active[i]),
    ensures
        replay::settled(active, moment, now, quote) matches Some(split) ==> {
            &&& forall|i: int| 0 <= i < split.0.len() ==> q(#[trigger] split.0[i])
            &&& forall|i: int| 0 <= i < split.1.len() ==> comes_from(#[trigger] split.1[i], q)
            &&& forall|i: int|
                0 <= i < split.1.len() ==> (#[trigger] split.1[i]).exit_timestamp_ns == now
        },
    decreases active.len(),
{
    if active.len() > 0 {
        let rest = active.drop_last();
        assert forall|i: int| 0 <= i < rest.len() implies q(#[trigger] rest[i]) by {
            assert(rest[i] == active[i]);
        }
        lemma_settled_hold(rest, moment, now, quote, q);
        assert(q(active[active.len() - 1]));
        if let Some(price) = replay::exit_price(active.last(), moment, now, quote) {
            if let Some(trade) = replay::trade_of(active.last(), now, price, moment.reason()) {
                assert(completes(trade, active.last()));
                assert(comes_from(trade, q));
            }
        }
    }
}

proof fn lemma_entered_hold(
    pending: Seq<PendingExposure>,
    now: u64,
    quote: Quote,
    p: spec_fn(PendingExposure) -> bool,
    q: spec_fn(ActiveExposure) -> bool,
)
    requires
        forall|i: int| 0 <= i < pending.len() ==> p(#[trigger] pending[i]),
        forall|x: PendingExposure| #[trigger]
            p(x) && x.order.instrument@ == quote.instrument ==> q(
                ActiveExposure {
                    pending: x,
                    entry_timestamp_ns: now,
                    entry_price: quote.bar.open,
                },
            ),
    ensures
        replay::entered(pending, now, quote) matches Ok(split) ==> {
            &&& forall|i: int|
                0 <= i < split.0.len() ==> p(#[trigger] split.0[i])
                    && split.0[i].order.instrument@ != quote.instrument && pending.contains(
                    split.0[i],
                )
            &&& forall|i: int| 0 <= i < split.1.len() ==> q(#[trigger] split.1[i])
        },
    decreases pending.len(),
{
    if pending.len() > 0 {
        let rest = pending.drop_last();
        assert forall|i: int| 0 <= i < rest.len() implies p(#[trigger] rest[i]) by {
            assert(rest[i] == pending[i]);
        }
        lemma_entered_hold(rest, now, quote, p, q);
        let last = pending[pending.len() - 1];
        assert(p(last));
        if let Ok(split) = replay::entered(rest, now, quote) {
            assert forall|i: int| 0 <= i < split.0.len() implies pending.contains(
                #[trigger] split.0[i],
            ) by {
                let m = choose|m: int| 0 <= m < rest.len() && rest[m] == split.0[i];
                assert(pending[m] == split.0[i]);
            }
        }
    }
}

proof fn lemma_after_hold(
    book: Book,
    moment: Moment,
    now: u64,
    batch: Seq<Quote>,
    p: spec_fn(PendingExposure) -> bool,
    q: spec_fn(ActiveExposure) -> bool,
)
    requires
        all_hold(book, p, q),
        moment == Moment::Open ==> forall|b: int, x: PendingExposure|
            0 <= b < batch.len() && #[trigger] p(x) && x.order.instrument@ == (
            #[trigger] batch[b]).instrument ==> q(
                ActiveExposure {
                    pending: x,
                    entry_timestamp_ns: now,
                    entry_price: batch[b].bar.open,
                },
            ),
    ensures
        book.after(moment, now, batch) matches Ok(next) ==> {
            &&& all_hold(next, p, q)
            &&& moment != Moment::Open ==> next.pending == book.pending
            &&& moment == Moment::Open ==> forall|i: int, b: int|
                0 <= i < next.pending.len() && 0 <= b < batch.len() ==> (
                #[trigger] next.pending[i]).order.instrument@ != (#[trigger] batch[b]).instrument
        },
    decreases batch.len(),
{
    if batch.len() > 0 {
        let fewer = batch.drop_last();
        let quote = batch.last();
        assert forall|b: int, x: PendingExposure|
            moment == Moment::Open && 0 <= b < fewer.len() && #[trigger] p(x)
                && x.order.instrument@ == (#[trigger] fewer[b]).instrument implies q(
            ActiveExposure {
                pending: x,
                entry_timestamp_ns: now,
                entry_price: fewer[b].bar.open,
            },
        ) by {
            assert(fewer[b] == batch[b]);
        }
        lemma_after_hold(book, moment, now, fewer, p, q);
        if let Ok(middle) = book.after(moment, now, fewer) {
            lemma_settled_hold(middle.active, moment, now, quote, q);
            if let Some(split) = replay::settled(middle.active, moment, now, quote) {
                let booked = middle.trades + split.1;
                assert forall|i: int| 0 <= i < booked.len() implies comes_from(
                    #[trigger] booked[i],
                    q,
                ) by {
                    if i >= middle.trades.len() {
                        assert(booked[i] == split.1[i - middle.trades.len()]);
                    } else {
                        assert(booked[i] == middle.trades[i]);
                    }
                }
                if moment == Moment::Open {
                    assert forall|x: PendingExposure| #[trigger]
                        p(x) && x.order.instrument@ == quote.instrument implies q(
                        ActiveExposure {
                            pending: x,
                            entry_timestamp_ns: now,
                            entry_price: quote.bar.open,
                        },
                    ) by {
                        assert(batch[batch.len() - 1] == quote);
                    }
                    lemma_entered_hold(middle.pending, now, quote, p, q);
                    if let Ok(entry) = replay::entered(middle.pending, now, quote) {
                        let all = split.0 + entry.1;
                        assert forall|i: int| 0 <= i < all.len() implies q(#[trigger] all[i]) by {
                            if i >= split.0.len() {
                                assert(all[i] == entry.1[i - split.0.len()]);
                            } else {
                                assert(all[i] == split.0[i]);
                            }
                        }
                        assert forall|i: int, b: int|
                            0 <= i < entry.0.len() && 0 <= b < batch.len() implies (
                        #[trigger] entry.0[i]).order.instrument@ != (
                        #[trigger] batch[b]).instrument by {
                            if b < fewer.len() {
                                assert(batch[b] == fewer[b]);
                                assert(middle.pending.contains(entry.0[i]));
                                let m = choose|m: int|
                                    0 <= m < middle.pending.len() && middle.pending[m]
                                        == entry.0[i];
                                assert(middle.pending[m].order.instrument@
                                    != fewer[b].instrument);
                            }
                        }
                    }
                }
            }
        }
    }
}

proof fn lemma_orders_hold(
    book: Book,
    instruments: Set<Seq<char>>,
    now: u64,
    orders: Seq<ExposureOrder>,
    p: spec_fn(PendingExposure) -> bool,
    q: spec_fn(ActiveExposure) -> bool,
)
    requires
        all_hold(book, p, q),
        forall|j: int|
            0 <= j < orders.len() ==> p(
                PendingExposure { order: #[trigger] orders[j], signal_timestamp_ns: now },
            ),
    ensures
        book.with_orders(instruments, now, orders) matches Ok(next) ==> {
            &&& all_hold(next, p, q)
            &&& book.ids.subset_of(next.ids)
            &&& forall|j: int| 0 <= j < orders.len() ==> next.ids.contains((#[trigger] orders[j]).id@)
        },
    decreases orders.len(),
{
    if orders.len() > 0 {
        let fewer = orders.drop_last();
        assert forall|j: int| 0 <= j < fewer.len() implies p(
            PendingExposure { order: #[trigger] fewer[j], signal_timestamp_ns: now },
        ) by {
            assert(fewer[j] == orders[j]);
        }
        lemma_orders_hold(book, instruments, now, fewer, p, q);
        assert(orders[orders.len() - 1] == orders.last());
        if let Ok(middle) = book.with_orders(instruments, now, fewer) {
            if let Ok(next) = book.with_orders(instruments, now, orders) {
                assert forall|j: int| 0 <= j < orders.len() implies next.ids.contains(
                    (#[trigger] orders[j]).id@,
                ) by {
                    if j < fewer.len() {
                        assert(fewer[j] == orders[j]);
                    }
                }
            }
        }
    }
}

/// Whether an order waits rightly: it was given, and its instrument had no bar
/// since.
spec fn waits(
    histories: Seq<InstrumentHistory>,
    times: Seq<u64>,
    answers: Seq<Result<Seq<ExposureOrder>, Seq<char>>>,
    count: int,
    pending: PendingExposure,
    before_ns: int,
) -> bool {
    &&& emitted(times, answers, count, pending.order, pending.signal_timestamp_ns)
    &&& pending.signal_timestamp_ns < before_ns
    &&& quiet(histories, pending.order.instrument@, pending.signal_timestamp_ns, before_ns)
}

/// Whether an exposure was entered rightly: its order was given, and the entry is
/// the next open of its instrument.
spec fn stands(
    histories: Seq<InstrumentHistory>,
    times: Seq<u64>,
    answers: Seq<Result<Seq<ExposureOrder>, Seq<char>>>,
    count: int,
    active: ActiveExposure,
) -> bool {
    let pending = active.pending;
    &&& emitted(times, answers, count, pending.order, pending.signal_timestamp_ns)
    &&& opens_next(
        histories,
        pending.order.instrument@,
        pending.signal_timestamp_ns,
        active.entry_timestamp_ns,
        active.entry_price,
    )
}

proof fn lemma_emitted_grows(
    times: Seq<u64>,
    answers: Seq<Result<Seq<ExposureOrder>, Seq<char>>>,
    count: int,
    order: ExposureOrder,
    signal_ns: u64,
)
    requires
        emitted(times, answers, count, order, signal_ns),
    ensures
        emitted(times, answers, count + 1, order, signal_ns),
{
    let (i, j) = choose|i: int, j: int|
        0 <= i < count && times[i] == signal_ns && answers[i] is Ok && 0 <= j
            < answers[i]->Ok_0.len() && #[trigger] answers[i]->Ok_0[j] == order;
    assert(answers[i]->Ok_0[j] == order);
}

proof fn lemma_all_hold(
    book: Book,
    p: spec_fn(PendingExposure) -> bool,
    q: spec_fn(ActiveExposure) -> bool,
    p2: spec_fn(PendingExposure) -> bool,
    q2: spec_fn(ActiveExposure) -> bool,
)
    requires
        all_hold(book, p, q),
        forall|i: int| 0 <= i < book.pending.len() ==> p2(#[trigger] book.pending[i]),
        forall|a: ActiveExposure| #[trigger] q(a) ==> q2(a),
    ensures
        all_hold(book, p2, q2),
{
    assert forall|i: int| 0 <= i < book.trades.len() implies comes_from(
        #[trigger] book.trades[i],
        q2,
    ) by {
        assert(comes_from(book.trades[i], q));
        let a = choose|a: ActiveExposure| #[trigger] q(a) && completes(book.trades[i], a);
        assert(q2(a));
    }
}

/// No bar stands between two times that follow each other.
pub(crate) proof fn lemma_quiet_between(
    histories: Seq<InstrumentHistory>,
    times: Seq<u64>,
    at: int,
    instrument: Seq<char>,
    from_ns: u64,
)
    requires
        run::starts_timeline(times, histories),
        0 < at < times.len(),
        quiet(histories, instrument, from_ns, times[at - 1] + 1),
    ensures
        quiet(histories, instrument, from_ns, times[at] as int),
{
    assert forall|bar: HistoryBar| #[trigger]
        has_bar(histories, instrument, bar) && from_ns < bar.timestamp_ns implies bar.timestamp_ns
        >= times[at] by {
        lemma_bar_occurs(histories, instrument, bar);
        let t = bar.timestamp_ns;
        if t < times[at] {
            assert(times[at] <= times.last());
            assert(times.contains(t));
            let m = choose|m: int| 0 <= m < times.len() && times[m] == t;
            if m < at - 1 {
                assert(times[m] < times[at - 1]);
            }
            if m > at {
                assert(times[at] < times[m]);
            }
        }
    }
}

proof fn lemma_bar_occurs(
    histories: Seq<InstrumentHistory>,
    instrument: Seq<char>,
    bar: HistoryBar,
)
    requires
        has_bar(histories, instrument, bar),
    ensures
        timeline::occurs(histories, bar.timestamp_ns),
        exists|h: int, k: int|
            0 <= h < histories.len() && 0 <= k < histories[h].bars@.len()
                && histories[h].instrument@ == instrument && #[trigger] histories[h].bars@[k]
                == bar,
{
    let h = choose|h: int|
        0 <= h < histories.len() && (#[trigger] histories[h]).instrument@ == instrument
            && timeline::holds(histories[h], bar);
    let k = choose|k: int| 0 <= k < histories[h].bars@.len() && histories[h].bars@[k] == bar;
    assert(histories[h].bars@[k] == bar);
}

/// The bar of a batch is one of its instrument.
pub(crate) proof fn lemma_batch_bar(
    batch: Seq<Quote>,
    histories: Seq<InstrumentHistory>,
    now: u64,
    b: int,
)
    requires
        timeline::is_batch(batch, histories, now),
        0 <= b < batch.len(),
    ensures
        has_bar(histories, batch[b].instrument, batch[b].bar),
        batch[b].bar.timestamp_ns == now,
{
    let h = choose|h: int|
        0 <= h < histories.len() && (#[trigger] histories[h]).instrument@ == batch[b].instrument
            && timeline::holds(histories[h], batch[b].bar);
    assert(histories[h].instrument@ == batch[b].instrument);
}

/// An instrument that is not in a batch has no bar at its time.
proof fn lemma_not_in_batch(
    batch: Seq<Quote>,
    histories: Seq<InstrumentHistory>,
    now: u64,
    instrument: Seq<char>,
    bar: HistoryBar,
)
    requires
        timeline::is_batch(batch, histories, now),
        forall|b: int| 0 <= b < batch.len() ==> (#[trigger] batch[b]).instrument != instrument,
        has_bar(histories, instrument, bar),
    ensures
        bar.timestamp_ns != now,
{
    lemma_bar_occurs(histories, instrument, bar);
    let (h, k) = choose|h: int, k: int|
        0 <= h < histories.len() && 0 <= k < histories[h].bars@.len() && histories[h].instrument@
            == instrument && #[trigger] histories[h].bars@[k] == bar;
    if bar.timestamp_ns == now {
        assert(histories[h].bars@[k].timestamp_ns == now);
        let quote = Quote {
            instrument: histories[h].instrument@,
            bar: histories[h].bars@[k],
        };
        assert(batch.contains(quote));
        let b = choose|b: int| 0 <= b < batch.len() && batch[b] == quote;
        assert(batch[b].instrument != instrument);
    }
}

/// The bar of an instrument at the time of a batch is in it.
pub(crate) proof fn lemma_in_batch(
    batch: Seq<Quote>,
    histories: Seq<InstrumentHistory>,
    now: u64,
    instrument: Seq<char>,
    bar: HistoryBar,
) -> (b: int)
    requires
        timeline::is_batch(batch, histories, now),
        has_bar(histories, instrument, bar),
        bar.timestamp_ns == now,
    ensures
        0 <= b < batch.len(),
        batch[b].instrument == instrument,
        batch[b].bar == bar,
{
    lemma_bar_occurs(histories, instrument, bar);
    let (h, k) = choose|h: int, k: int|
        0 <= h < histories.len() && 0 <= k < histories[h].bars@.len() && histories[h].instrument@
            == instrument && #[trigger] histories[h].bars@[k] == bar;
    assert(histories[h].bars@[k].timestamp_ns == now);
    let quote = Quote { instrument: histories[h].instrument@, bar: histories[h].bars@[k] };
    assert(batch.contains(quote));
    choose|b: int| 0 <= b < batch.len() && batch[b] == quote
}

/// One time of a replay, up to the callback.
proof fn lemma_before_answer_holds(
    histories: Seq<InstrumentHistory>,
    times: Seq<u64>,
    batch: Seq<Quote>,
    answers: Seq<Result<Seq<ExposureOrder>, Seq<char>>>,
    book: Book,
    at: int,
)
    requires
        0 <= at < times.len(),
        timeline::is_batch(batch, histories, times[at]),
        all_hold(
            book,
            |x: PendingExposure| waits(histories, times, answers, at, x, times[at] as int),
            |a: ActiveExposure| stands(histories, times, answers, at, a),
        ),
    ensures
        replay::before_answer(book, times[at], batch) matches Ok(next) ==> {
            &&& all_hold(
                next,
                |x: PendingExposure| waits(histories, times, answers, at + 1, x, times[at] + 1),
                |a: ActiveExposure| stands(histories, times, answers, at + 1, a),
            )
            &&& next.ids == book.ids
        },
{
    let now = times[at];
    let p = |x: PendingExposure| waits(histories, times, answers, at, x, now as int);
    let q = |a: ActiveExposure| stands(histories, times, answers, at, a);
    let p2 = |x: PendingExposure| waits(histories, times, answers, at + 1, x, now + 1);
    let q2 = |a: ActiveExposure| stands(histories, times, answers, at + 1, a);
    assert forall|b: int, x: PendingExposure|
        0 <= b < batch.len() && #[trigger] p(x) && x.order.instrument@ == (
        #[trigger] batch[b]).instrument implies q(
        ActiveExposure { pending: x, entry_timestamp_ns: now, entry_price: batch[b].bar.open },
    ) by {
        lemma_batch_bar(batch, histories, now, b);
    }
    lemma_after_hold(book, Moment::Open, now, batch, p, q);
    laws::lemma_after_counts(book, Moment::Open, now, batch, Seq::empty());
    if let Ok(opened) = book.after(Moment::Open, now, batch) {
        lemma_after_hold(opened, Moment::Stop, now, batch, p, q);
        laws::lemma_after_counts(opened, Moment::Stop, now, batch, Seq::empty());
        if let Ok(next) = opened.after(Moment::Stop, now, batch) {
            assert forall|a: ActiveExposure| #[trigger] q(a) implies q2(a) by {
                lemma_emitted_grows(
                    times,
                    answers,
                    at,
                    a.pending.order,
                    a.pending.signal_timestamp_ns,
                );
            }
            assert forall|i: int| 0 <= i < next.pending.len() implies p2(
                #[trigger] next.pending[i],
            ) by {
                let x = next.pending[i];
                assert(p(x));
                lemma_emitted_grows(times, answers, at, x.order, x.signal_timestamp_ns);
                assert(opened.pending[i] == x);
                assert forall|bar: HistoryBar| #[trigger]
                    has_bar(histories, x.order.instrument@, bar) && x.signal_timestamp_ns
                        < bar.timestamp_ns implies bar.timestamp_ns >= now + 1 by {
                    assert forall|b: int| 0 <= b < batch.len() implies (
                    #[trigger] batch[b]).instrument != x.order.instrument@ by {
                        assert(opened.pending[i].order.instrument@ != batch[b].instrument);
                    }
                    lemma_not_in_batch(batch, histories, now, x.order.instrument@, bar);
                }
            }
            lemma_all_hold(next, p, q, p2, q2);
        }
    }
}

/// One time of a replay, from the callback on.
proof fn lemma_after_answer_holds(
    histories: Seq<InstrumentHistory>,
    times: Seq<u64>,
    batch: Seq<Quote>,
    answers: Seq<Result<Seq<ExposureOrder>, Seq<char>>>,
    instruments: Set<Seq<char>>,
    book: Book,
    at: int,
)
    requires
        0 <= at < times.len(),
        all_hold(
            book,
            |x: PendingExposure| waits(histories, times, answers, at + 1, x, times[at] + 1),
            |a: ActiveExposure| stands(histories, times, answers, at + 1, a),
        ),
    ensures
        replay::after_answer(book, instruments, times[at], batch, answers[at]) matches Ok(next)
            ==> {
            &&& all_hold(
                next,
                |x: PendingExposure| waits(histories, times, answers, at + 1, x, times[at] + 1),
                |a: ActiveExposure| stands(histories, times, answers, at + 1, a),
            )
            &&& book.ids.subset_of(next.ids)
            &&& forall|j: int|
                0 <= j < answers[at]->Ok_0.len() ==> next.ids.contains(
                    (#[trigger] answers[at]->Ok_0[j]).id@,
                )
        },
{
    broadcast use vstd::seq_lib::group_to_multiset_ensures;

    let now = times[at];
    let p = |x: PendingExposure| waits(histories, times, answers, at + 1, x, now + 1);
    let q = |a: ActiveExposure| stands(histories, times, answers, at + 1, a);
    if let Ok(orders) = answers[at] {
        let queue = arrange::arranged(orders);
        arrange::law_arranged(orders);
        assert forall|j: int| 0 <= j < queue.len() implies p(
            PendingExposure { order: #[trigger] queue[j], signal_timestamp_ns: now },
        ) by {
            arrange::lemma_arranged_contains(orders, j);
            let m = choose|m: int| 0 <= m < orders.len() && orders[m] == queue[j];
            assert(answers[at]->Ok_0[m] == queue[j]);
        }
        lemma_orders_hold(book, instruments, now, queue, p, q);
        if let Ok(waiting) = book.with_orders(instruments, now, queue) {
            lemma_after_hold(waiting, Moment::Close, now, batch, p, q);
            laws::lemma_after_counts(waiting, Moment::Close, now, batch, Seq::empty());
            if let Ok(next) = waiting.after(Moment::Close, now, batch) {
                assert forall|j: int| 0 <= j < orders.len() implies next.ids.contains(
                    (#[trigger] answers[at]->Ok_0[j]).id@,
                ) by {
                    assert(orders.contains(orders[j]));
                    assert(orders.to_multiset().contains(orders[j]));
                    assert(queue.to_multiset().contains(orders[j]));
                    assert(queue.contains(orders[j]));
                    let m = choose|m: int| 0 <= m < queue.len() && queue[m] == orders[j];
                    assert(next.ids.contains(queue[m].id@));
                }
            }
        }
    }
}

/// Whether the identifiers of all orders that were given are in a book.
spec fn knows_all(
    book: Book,
    times: Seq<u64>,
    answers: Seq<Result<Seq<ExposureOrder>, Seq<char>>>,
    count: int,
) -> bool {
    forall|order: ExposureOrder, signal_ns: u64| #[trigger]
        emitted(times, answers, count, order, signal_ns) ==> book.ids.contains(order.id@)
}

/// After every time, what waits was given and finds no open since, and what was
/// entered was given and entered at the next open.
proof fn lemma_conduct(
    histories: Seq<InstrumentHistory>,
    times: Seq<u64>,
    batches: Seq<Seq<Quote>>,
    answers: Seq<Result<Seq<ExposureOrder>, Seq<char>>>,
    instruments: Set<Seq<char>>,
    count: int,
)
    requires
        run::starts_timeline(times, histories),
        batches.len() == times.len(),
        answers.len() == times.len(),
        forall|i: int|
            0 <= i < times.len() ==> timeline::is_batch(#[trigger] batches[i], histories, times[i]),
        0 < count <= times.len(),
    ensures
        replay::replayed(instruments, times, batches, answers, count) matches Ok(book) ==> {
            &&& all_hold(
                book,
                |x: PendingExposure|
                    waits(histories, times, answers, count, x, times[count - 1] + 1),
                |a: ActiveExposure| stands(histories, times, answers, count, a),
            )
            &&& knows_all(book, times, answers, count)
        },
    decreases count,
{
    let at = count - 1;
    let now = times[at];
    if let Ok(book) = replay::replayed(instruments, times, batches, answers, at) {
        let p = |x: PendingExposure| waits(histories, times, answers, at, x, now as int);
        let q = |a: ActiveExposure| stands(histories, times, answers, at, a);
        if at == 0 {
            assert(all_hold(book, p, q));
            assert(knows_all(book, times, answers, 0));
        } else {
            lemma_conduct(histories, times, batches, answers, instruments, at);
            let earlier = |x: PendingExposure|
                waits(histories, times, answers, at, x, times[at - 1] + 1);
            assert forall|i: int| 0 <= i < book.pending.len() implies p(
                #[trigger] book.pending[i],
            ) by {
                let x = book.pending[i];
                assert(earlier(x));
                lemma_quiet_between(
                    histories,
                    times,
                    at,
                    x.order.instrument@,
                    x.signal_timestamp_ns,
                );
                assert(times[at - 1] < times[at]);
            }
            lemma_all_hold(book, earlier, q, p, q);
        }
        lemma_before_answer_holds(histories, times, batches[at], answers, book, at);
        if let Ok(waiting) = replay::before_answer(book, now, batches[at]) {
            lemma_after_answer_holds(
                histories,
                times,
                batches[at],
                answers,
                instruments,
                waiting,
                at,
            );
            if let Ok(next) = replay::after_answer(
                waiting,
                instruments,
                now,
                batches[at],
                answers[at],
            ) {
                assert forall|order: ExposureOrder, signal_ns: u64| #[trigger]
                    emitted(times, answers, count, order, signal_ns) implies next.ids.contains(
                    order.id@,
                ) by {
                    let (i, j) = choose|i: int, j: int|
                        0 <= i < count && times[i] == signal_ns && answers[i] is Ok && 0 <= j
                            < answers[i]->Ok_0.len() && #[trigger] answers[i]->Ok_0[j] == order;
                    if i < at {
                        assert(answers[i]->Ok_0[j] == order);
                        assert(emitted(times, answers, at, order, signal_ns));
                    }
                }
            }
        }
    }
}

/// How many exposures that are left carry an identifier.
pub open spec fn left(censored: Seq<CensoredExposure>, id: Seq<char>) -> int
    decreases censored.len(),
{
    if censored.len() == 0 {
        0
    } else {
        left(censored.drop_last(), id) + if censored.last().id@ == id {
            1int
        } else {
            0
        }
    }
}

proof fn lemma_left_placed(items: Seq<CensoredExposure>, item: CensoredExposure, id: Seq<char>)
    ensures
        left(arrange::placed(items, item), id) == left(items, id) + if item.id@ == id {
            1int
        } else {
            0
        },
    decreases items.len(),
{
    if items.len() == 0 || !arrange::Ranked::ranks_before(item, items.last()) {
        assert(items.push(item).drop_last() =~= items);
    } else {
        lemma_left_placed(items.drop_last(), item, id);
        let front = arrange::placed(items.drop_last(), item);
        assert(front.push(items.last()).drop_last() =~= front);
    }
}

proof fn lemma_left_arranged(items: Seq<CensoredExposure>, id: Seq<char>)
    ensures
        left(arrange::arranged(items), id) == left(items, id),
    decreases items.len(),
{
    if items.len() > 0 {
        lemma_left_arranged(items.drop_last(), id);
        lemma_left_placed(arrange::arranged(items.drop_last()), items.last(), id);
    }
}

proof fn lemma_completed_placed(items: Seq<ComponentTrade>, item: ComponentTrade, id: Seq<char>)
    ensures
        laws::completed(arrange::placed(items, item), id) == laws::completed(items, id)
            + if item.id@ == id {
            1int
        } else {
            0
        },
    decreases items.len(),
{
    if items.len() == 0 || !arrange::Ranked::ranks_before(item, items.last()) {
        assert(items.push(item).drop_last() =~= items);
    } else {
        lemma_completed_placed(items.drop_last(), item, id);
        let front = arrange::placed(items.drop_last(), item);
        assert(front.push(items.last()).drop_last() =~= front);
    }
}

proof fn lemma_completed_arranged(items: Seq<ComponentTrade>, id: Seq<char>)
    ensures
        laws::completed(arrange::arranged(items), id) == laws::completed(items, id),
    decreases items.len(),
{
    if items.len() > 0 {
        lemma_completed_arranged(items.drop_last(), id);
        lemma_completed_placed(arrange::arranged(items.drop_last()), items.last(), id);
    }
}

/// The exposures of a book that are left, waiting ones first.
pub(crate) open spec fn leftovers(book: Book) -> Seq<CensoredExposure> {
    book.pending.map_values(|pending: PendingExposure| run::never_entered(pending))
        + book.active.map_values(|active: ActiveExposure| run::never_completed(active))
}

proof fn lemma_left_pending(pending: Seq<PendingExposure>, id: Seq<char>)
    ensures
        left(pending.map_values(|pending: PendingExposure| run::never_entered(pending)), id)
            == laws::waiting(pending, id),
    decreases pending.len(),
{
    if pending.len() > 0 {
        lemma_left_pending(pending.drop_last(), id);
        let all = pending.map_values(|pending: PendingExposure| run::never_entered(pending));
        assert(all.drop_last() =~= pending.drop_last().map_values(
            |pending: PendingExposure| run::never_entered(pending),
        ));
    }
}

proof fn lemma_left_both(
    first: Seq<CensoredExposure>,
    active: Seq<ActiveExposure>,
    id: Seq<char>,
)
    ensures
        left(
            first + active.map_values(|active: ActiveExposure| run::never_completed(active)),
            id,
        ) == left(first, id) + laws::running(active, id),
    decreases active.len(),
{
    let all = active.map_values(|active: ActiveExposure| run::never_completed(active));
    if active.len() == 0 {
        assert(first + all =~= first);
    } else {
        lemma_left_both(first, active.drop_last(), id);
        assert((first + all).drop_last() =~= first + active.drop_last().map_values(
            |active: ActiveExposure| run::never_completed(active),
        ));
    }
}

/// A book and the exposures that it leaves count the same.
proof fn lemma_standing(book: Book, id: Seq<char>)
    ensures
        laws::completed(arrange::arranged(book.trades), id) + left(run::censored(book), id)
            == laws::standing(book, id),
{
    lemma_completed_arranged(book.trades, id);
    lemma_left_arranged(leftovers(book), id);
    lemma_left_pending(book.pending, id);
    lemma_left_both(
        book.pending.map_values(|pending: PendingExposure| run::never_entered(pending)),
        book.active,
        id,
    );
}

/// Whether a trade carries out an order.
pub open spec fn carries_out(trade: ComponentTrade, order: ExposureOrder) -> bool {
    &&& trade.id == order.id
    &&& trade.component == order.component
    &&& trade.instrument == order.instrument
    &&& trade.setup == order.setup
    &&& trade.side == order.side
    &&& trade.cost_fraction == order.cost_fraction
    &&& trade.component_scale == order.component_scale
    &&& trade.instrument_weight == order.instrument_weight
}

/// Whether an exposure that is left belongs to an order.
pub open spec fn belongs_to(exposure: CensoredExposure, order: ExposureOrder) -> bool {
    &&& exposure.id == order.id
    &&& exposure.component == order.component
    &&& exposure.instrument == order.instrument
}

/// Whether a trade carries out an order that was given at its signal time.
pub open spec fn trade_was_given(
    trade: ComponentTrade,
    times: Seq<u64>,
    answers: Seq<Result<Seq<ExposureOrder>, Seq<char>>>,
) -> bool {
    exists|order: ExposureOrder| #[trigger]
        carries_out(trade, order) && emitted(
            times,
            answers,
            times.len() as int,
            order,
            trade.signal_timestamp_ns,
        )
}

/// Whether an exposure that is left belongs to an order that was given at its
/// signal time.
pub open spec fn exposure_was_given(
    exposure: CensoredExposure,
    times: Seq<u64>,
    answers: Seq<Result<Seq<ExposureOrder>, Seq<char>>>,
) -> bool {
    exists|order: ExposureOrder| #[trigger]
        belongs_to(exposure, order) && emitted(
            times,
            answers,
            times.len() as int,
            order,
            exposure.signal_timestamp_ns,
        )
}

/// The book that a result sums up.
pub(crate) proof fn lemma_result_book(
    result: FixedCapitalResult,
    days: Seq<TradingDay>,
    configured: Option<Seq<String>>,
    histories: Seq<InstrumentHistory>,
    data_size_bytes: u64,
    times: Seq<u64>,
    batches: Seq<Seq<Quote>>,
    answers: Seq<Result<Seq<ExposureOrder>, Seq<char>>>,
) -> (book: Book)
    requires
        run::is_outcome(
            Ok(result),
            days,
            configured,
            histories,
            data_size_bytes,
            times,
            batches,
            answers,
        ),
    ensures
        replay::replayed(
            run::known(histories),
            times,
            batches,
            answers,
            times.len() as int,
        ) == Ok::<Book, super::Problem>(book),
        times.len() > 0,
        timeline::is_timeline(times, histories),
        result.trades@ == arrange::arranged(book.trades),
        result.censored@ == run::censored(book),
        replay::missed(book.active, times.last() + 1) is None,
{
    replay::replayed(run::known(histories), times, batches, answers, times.len() as int)->Ok_0
}

/// Every order that the strategy gave is traded once or left once, and nothing
/// else is: a trade or an exposure that is left carries the order's identifier,
/// component and instrument, and the time of the call that gave the order.
/// Trades stand by component, instrument, entry and identifier, exposures that
/// are left by identifier.
pub proof fn law_every_order_is_traded_or_left_once<S: FixedCapitalStrategy>(record: Record<S>)
    requires
        record.took_place(),
    ensures
        forall|order: ExposureOrder, signal_ns: u64| #[trigger]
            emitted(record.times, record.answers, record.times.len() as int, order, signal_ns) ==> laws::completed(
                record.result.trades@,
                order.id@,
            ) + left(record.result.censored@, order.id@) == 1,
        forall|k: int|
            0 <= k < record.result.trades@.len() ==> trade_was_given(
                #[trigger] record.result.trades@[k],
                record.times,
                record.answers,
            ),
        forall|k: int|
            0 <= k < record.result.censored@.len() ==> exposure_was_given(
                #[trigger] record.result.censored@[k],
                record.times,
                record.answers,
            ),
        arrange::in_order(record.result.trades@),
        arrange::in_order(record.result.censored@),
{
    let result = record.result;
    let days = record.days;
    let configured = record.configured;
    let histories = record.histories;
    let data_size_bytes = record.data_size_bytes;
    let times = record.times;
    let batches = record.batches;
    let answers = record.answers;
    let count = times.len() as int;
    let book = lemma_result_book(
        result,
        days,
        configured,
        histories,
        data_size_bytes,
        times,
        batches,
        answers,
    );
    lemma_conduct(histories, times, batches, answers, run::known(histories), count);
    let q = |a: ActiveExposure| stands(histories, times, answers, count, a);
    let p = |x: PendingExposure|
        waits(histories, times, answers, count, x, times[count - 1] + 1);
    assert(all_hold(book, p, q));
    arrange::law_arranged(book.trades);
    arrange::law_arranged(leftovers(book));
    assert forall|order: ExposureOrder, signal_ns: u64| #[trigger]
        emitted(times, answers, count, order, signal_ns) implies laws::completed(
        result.trades@,
        order.id@,
    ) + left(result.censored@, order.id@) == 1 by {
        assert(book.ids.contains(order.id@));
        laws::law_each_exposure_stands_once(
            run::known(histories),
            times,
            batches,
            answers,
            count,
            order.id@,
        );
        lemma_standing(book, order.id@);
    }
    assert forall|k: int| 0 <= k < result.trades@.len() implies trade_was_given(
        #[trigger] result.trades@[k],
        times,
        answers,
    ) by {
        let a = lemma_trade_source(book, q, k);
        assert(carries_out(result.trades@[k], a.pending.order));
    }
    assert forall|k: int| 0 <= k < result.censored@.len() implies exposure_was_given(
        #[trigger] result.censored@[k],
        times,
        answers,
    ) by {
        let found = result.censored@[k];
        arrange::lemma_arranged_contains(leftovers(book), k);
        let m = choose|m: int|
            0 <= m < leftovers(book).len() && leftovers(book)[m] == found;
        if m < book.pending.len() {
            assert(p(book.pending[m]));
            assert(belongs_to(found, book.pending[m].order));
        } else {
            let a = book.active[m - book.pending.len()];
            assert(q(a));
            assert(belongs_to(found, a.pending.order));
        }
    }
}

/// The exposure that a trade of a result completes.
proof fn lemma_trade_source(book: Book, q: spec_fn(ActiveExposure) -> bool, k: int) -> (active:
    ActiveExposure)
    requires
        forall|i: int| 0 <= i < book.trades.len() ==> comes_from(#[trigger] book.trades[i], q),
        0 <= k < arrange::arranged(book.trades).len(),
    ensures
        q(active),
        completes(arrange::arranged(book.trades)[k], active),
        book.trades.contains(arrange::arranged(book.trades)[k]),
{
    let found = arrange::arranged(book.trades)[k];
    arrange::lemma_arranged_contains(book.trades, k);
    let m = choose|m: int| 0 <= m < book.trades.len() && book.trades[m] == found;
    assert(comes_from(book.trades[m], q));
    choose|active: ActiveExposure| #[trigger] q(active) && completes(found, active)
}

/// Every trade was entered at the open of the first bar that its instrument has
/// after the signal, and was completed no earlier. An exposure that is left and
/// was entered stands so too; one that was not entered found no bar after its
/// signal.
pub proof fn law_orders_are_entered_at_the_next_open<S: FixedCapitalStrategy>(record: Record<S>)
    requires
        record.took_place(),
    ensures
        forall|k: int|
            0 <= k < record.result.trades@.len() ==> {
                let trade = #[trigger] record.result.trades@[k];
                &&& opens_next(
                    record.histories,
                    trade.instrument@,
                    trade.signal_timestamp_ns,
                    trade.entry_timestamp_ns,
                    trade.entry_price,
                )
                &&& trade.entry_timestamp_ns <= trade.exit_timestamp_ns
            },
        forall|k: int|
            0 <= k < record.result.censored@.len() ==> {
                let exposure = #[trigger] record.result.censored@[k];
                match exposure.entry_timestamp_ns {
                    Some(entry_ns) => exposure.signal_timestamp_ns < entry_ns && quiet(
                        record.histories,
                        exposure.instrument@,
                        exposure.signal_timestamp_ns,
                        entry_ns as int,
                    ),
                    None => quiet(
                        record.histories,
                        exposure.instrument@,
                        exposure.signal_timestamp_ns,
                        record.times.last() + 1,
                    ),
                }
            },
{
    let result = record.result;
    let days = record.days;
    let configured = record.configured;
    let histories = record.histories;
    let data_size_bytes = record.data_size_bytes;
    let times = record.times;
    let batches = record.batches;
    let answers = record.answers;
    let count = times.len() as int;
    let book = lemma_result_book(
        result,
        days,
        configured,
        histories,
        data_size_bytes,
        times,
        batches,
        answers,
    );
    lemma_conduct(histories, times, batches, answers, run::known(histories), count);
    laws::law_entries_follow_signals(run::known(histories), times, batches, answers, count);
    let q = |a: ActiveExposure| stands(histories, times, answers, count, a);
    let p = |x: PendingExposure|
        waits(histories, times, answers, count, x, times[count - 1] + 1);
    assert(all_hold(book, p, q));
    arrange::law_arranged(book.trades);
    arrange::law_arranged(leftovers(book));
    assert forall|k: int| 0 <= k < result.trades@.len() implies {
        let trade = #[trigger] result.trades@[k];
        &&& opens_next(
            histories,
            trade.instrument@,
            trade.signal_timestamp_ns,
            trade.entry_timestamp_ns,
            trade.entry_price,
        )
        &&& trade.entry_timestamp_ns <= trade.exit_timestamp_ns
    } by {
        let trade = result.trades@[k];
        let a = lemma_trade_source(book, q, k);
        let m = choose|m: int| 0 <= m < book.trades.len() && book.trades[m] == trade;
        assert(laws::traded_in_time(book.trades[m], times[count - 1]));
    }
    assert forall|k: int| 0 <= k < result.censored@.len() implies {
        let exposure = #[trigger] result.censored@[k];
        match exposure.entry_timestamp_ns {
            Some(entry_ns) => exposure.signal_timestamp_ns < entry_ns && quiet(
                histories,
                exposure.instrument@,
                exposure.signal_timestamp_ns,
                entry_ns as int,
            ),
            None => quiet(
                histories,
                exposure.instrument@,
                exposure.signal_timestamp_ns,
                times.last() + 1,
            ),
        }
    } by {
        let found = result.censored@[k];
        arrange::lemma_arranged_contains(leftovers(book), k);
        let m = choose|m: int|
            0 <= m < leftovers(book).len() && leftovers(book)[m] == found;
        if m < book.pending.len() {
            assert(p(book.pending[m]));
        } else {
            assert(q(book.active[m - book.pending.len()]));
        }
    }
}

/// Whether a strategy has one answer to what it is shown.
pub open spec fn deterministic<S: FixedCapitalStrategy>() -> bool {
    forall|
        before: S,
        timestamp_ns: u64,
        shown: Seq<Quote>,
        after: S,
        given: Result<Seq<ExposureOrder>, Seq<char>>,
        other_after: S,
        other_given: Result<Seq<ExposureOrder>, Seq<char>>,
    | #[trigger]
        S::answers(before, timestamp_ns, shown, after, given) && #[trigger] S::answers(
            before,
            timestamp_ns,
            shown,
            other_after,
            other_given,
        ) ==> after == other_after && given == other_given
}

/// Whether histories have the same instruments, and the same bars up to a time.
pub open spec fn agree_through(
    a: Seq<InstrumentHistory>,
    b: Seq<InstrumentHistory>,
    through_ns: u64,
) -> bool {
    &&& run::known(a) == run::known(b)
    &&& forall|instrument: Seq<char>, bar: HistoryBar| #[trigger]
        has_bar(a, instrument, bar) && bar.timestamp_ns <= through_ns ==> has_bar(
            b,
            instrument,
            bar,
        )
    &&& forall|instrument: Seq<char>, bar: HistoryBar| #[trigger]
        has_bar(b, instrument, bar) && bar.timestamp_ns <= through_ns ==> has_bar(
            a,
            instrument,
            bar,
        )
}

proof fn lemma_occurs_too(
    a: Seq<InstrumentHistory>,
    b: Seq<InstrumentHistory>,
    through_ns: u64,
    t: u64,
)
    requires
        agree_through(a, b, through_ns),
        timeline::occurs(a, t),
        t <= through_ns,
    ensures
        timeline::occurs(b, t),
{
    let (h, k) = choose|h: int, k: int|
        0 <= h < a.len() && 0 <= k < a[h].bars@.len() && (#[trigger] a[h].bars@[k]).timestamp_ns
            == t;
    let bar = a[h].bars@[k];
    assert(timeline::holds(a[h], bar));
    assert(has_bar(a, a[h].instrument@, bar));
    lemma_bar_occurs(b, a[h].instrument@, bar);
}

proof fn lemma_agreement_turns(
    a: Seq<InstrumentHistory>,
    b: Seq<InstrumentHistory>,
    through_ns: u64,
)
    requires
        agree_through(a, b, through_ns),
    ensures
        agree_through(b, a, through_ns),
{
}

/// The times of histories that agree up to a time are the same up to it.
proof fn lemma_same_time(
    a: Seq<InstrumentHistory>,
    b: Seq<InstrumentHistory>,
    times: Seq<u64>,
    other: Seq<u64>,
    through_ns: u64,
    i: int,
)
    requires
        agree_through(a, b, through_ns),
        timeline::is_timeline(times, a),
        timeline::is_timeline(other, b),
        0 <= i < times.len(),
        times[i] <= through_ns,
    ensures
        i < other.len(),
        other[i] == times[i],
    decreases i,
{
    let t = times[i];
    assert forall|j: int| 0 <= j < i implies j < other.len() && #[trigger] other[j] == times[j] by {
        assert(times[j] < times[i]);
        lemma_same_time(a, b, times, other, through_ns, j);
    }
    assert(times.contains(t));
    lemma_occurs_too(a, b, through_ns, t);
    assert(other.contains(t));
    let m = choose|m: int| 0 <= m < other.len() && other[m] == t;
    if m < i {
        assert(other[m] == times[m]);
        assert(times[m] < times[i]);
    }
    if m > i {
        let earlier = other[i];
        assert(earlier < t);
        assert(other.contains(earlier));
        lemma_agreement_turns(a, b, through_ns);
        lemma_occurs_too(b, a, through_ns, earlier);
        assert(times.contains(earlier));
        let n = choose|n: int| 0 <= n < times.len() && times[n] == earlier;
        if n > i {
            assert(times[i] < times[n]);
        }
        assert(other[n] == times[n]);
        assert(other[n] < other[i]);
    }
}

/// What a batch holds at a time, another one of agreeing histories holds too.
proof fn lemma_batch_holds_too(
    a: Seq<InstrumentHistory>,
    b: Seq<InstrumentHistory>,
    batch: Seq<Quote>,
    other: Seq<Quote>,
    t: u64,
    through_ns: u64,
    i: int,
)
    requires
        agree_through(a, b, through_ns),
        timeline::is_batch(batch, a, t),
        timeline::is_batch(other, b, t),
        t <= through_ns,
        0 <= i < batch.len(),
    ensures
        other.contains(batch[i]),
{
    lemma_batch_bar(batch, a, t, i);
    let quote = batch[i];
    assert(has_bar(b, quote.instrument, quote.bar));
    lemma_bar_occurs(b, quote.instrument, quote.bar);
    let (h, k) = choose|h: int, k: int|
        0 <= h < b.len() && 0 <= k < b[h].bars@.len() && b[h].instrument@ == quote.instrument
            && #[trigger] b[h].bars@[k] == quote.bar;
    assert(b[h].bars@[k].timestamp_ns == t);
    assert(other.contains(Quote { instrument: b[h].instrument@, bar: b[h].bars@[k] }));
    assert(quote == (Quote { instrument: b[h].instrument@, bar: b[h].bars@[k] }));
}

proof fn lemma_same_quote(
    a: Seq<InstrumentHistory>,
    b: Seq<InstrumentHistory>,
    batch: Seq<Quote>,
    other: Seq<Quote>,
    t: u64,
    through_ns: u64,
    i: int,
)
    requires
        agree_through(a, b, through_ns),
        timeline::is_batch(batch, a, t),
        timeline::is_batch(other, b, t),
        t <= through_ns,
        0 <= i < batch.len(),
    ensures
        i < other.len(),
        other[i] == batch[i],
    decreases i,
{
    assert forall|j: int| 0 <= j < i implies j < other.len() && #[trigger] other[j] == batch[j] by {
        lemma_same_quote(a, b, batch, other, t, through_ns, j);
    }
    lemma_batch_holds_too(a, b, batch, other, t, through_ns, i);
    let m = choose|m: int| 0 <= m < other.len() && other[m] == batch[i];
    if m < i {
        assert(other[m] == batch[m]);
        crate::text::lemma_before_irreflexive(batch[i].instrument);
    }
    if m > i {
        lemma_agreement_turns(a, b, through_ns);
        lemma_batch_holds_too(b, a, other, batch, t, through_ns, i);
        let n = choose|n: int| 0 <= n < batch.len() && batch[n] == other[i];
        assert(crate::text::before(other[i].instrument, other[m].instrument));
        if n < i {
            assert(other[n] == batch[n]);
            crate::text::lemma_before_irreflexive(other[i].instrument);
        } else {
            crate::text::lemma_before_irreflexive(other[i].instrument);
            if n > i {
                assert(crate::text::before(batch[i].instrument, batch[n].instrument));
                crate::text::lemma_before_asymmetric(
                    other[i].instrument,
                    other[m].instrument,
                );
            }
        }
    }
}

proof fn lemma_same_batch(
    a: Seq<InstrumentHistory>,
    b: Seq<InstrumentHistory>,
    batch: Seq<Quote>,
    other: Seq<Quote>,
    t: u64,
    through_ns: u64,
)
    requires
        agree_through(a, b, through_ns),
        timeline::is_batch(batch, a, t),
        timeline::is_batch(other, b, t),
        t <= through_ns,
    ensures
        batch == other,
{
    assert forall|i: int| 0 <= i < batch.len() implies i < other.len() && #[trigger] batch[i]
        == other[i] by {
        lemma_same_quote(a, b, batch, other, t, through_ns, i);
    }
    if batch.len() < other.len() {
        lemma_agreement_turns(a, b, through_ns);
        lemma_same_quote(b, a, other, batch, t, through_ns, batch.len() as int);
    }
    if batch.len() > 0 {
        assert(batch[batch.len() - 1] == other[batch.len() - 1]);
    }
    assert(batch =~= other);
}

/// Two replays of a deterministic strategy that started alike tell the same up
/// to a time through which their bars agree.
proof fn lemma_same_telling<S: FixedCapitalStrategy>(
    a: Record<S>,
    b: Record<S>,
    through_ns: u64,
    i: int,
)
    requires
        a.took_place(),
        b.took_place(),
        a.before == b.before,
        deterministic::<S>(),
        agree_through(a.histories, b.histories, through_ns),
        0 <= i < a.times.len(),
        a.times[i] <= through_ns,
    ensures
        i < b.times.len(),
        a.times[i] == b.times[i],
        a.batches[i] == b.batches[i],
        a.states[i] == b.states[i],
        a.answers[i] == b.answers[i],
        a.states[i + 1] == b.states[i + 1],
    decreases i,
{
    law_strategy_is_asked_at_every_time(a);
    law_strategy_is_asked_at_every_time(b);
    if i > 0 {
        assert(a.times[i - 1] < a.times[i]);
        lemma_same_telling(a, b, through_ns, i - 1);
    }
    lemma_same_time(a.histories, b.histories, a.times, b.times, through_ns, i);
    assert(timeline::is_batch(a.batches[i], a.histories, a.times[i]));
    assert(timeline::is_batch(b.batches[i], b.histories, b.times[i]));
    lemma_same_batch(
        a.histories,
        b.histories,
        a.batches[i],
        b.batches[i],
        a.times[i],
        through_ns,
    );
    assert(S::answers(a.states[i], a.times[i], a.batches[i], a.states[i + 1], a.answers[i]));
    assert(S::answers(b.states[i], b.times[i], b.batches[i], b.states[i + 1], b.answers[i]));
}

/// How many times lie no later than a time.
proof fn lemma_times_through(times: Seq<u64>, through_ns: u64) -> (count: int)
    requires
        forall|i: int, j: int| 0 <= i < j < times.len() ==> times[i] < times[j],
    ensures
        0 <= count <= times.len(),
        forall|i: int| 0 <= i < count ==> #[trigger] times[i] <= through_ns,
        forall|i: int| count <= i < times.len() ==> #[trigger] times[i] > through_ns,
    decreases times.len(),
{
    if times.len() == 0 {
        0
    } else if times.last() <= through_ns {
        assert forall|i: int| 0 <= i < times.len() implies #[trigger] times[i] <= through_ns by {
            if i < times.len() - 1 {
                assert(times[i] < times[times.len() - 1]);
            }
        }
        times.len() as int
    } else {
        let rest = times.drop_last();
        let count = lemma_times_through(rest, through_ns);
        assert forall|i: int| 0 <= i < count implies #[trigger] times[i] <= through_ns by {
            assert(rest[i] == times[i]);
        }
        assert forall|i: int| count <= i < times.len() implies #[trigger] times[i] > through_ns by {
            if i < rest.len() {
                assert(rest[i] == times[i]);
            }
        }
        count
    }
}

/// Trades that a moment adds are completed at its time.
proof fn lemma_after_exits(book: Book, moment: Moment, now: u64, batch: Seq<Quote>)
    ensures
        book.after(moment, now, batch) matches Ok(next) ==> {
            &&& book.trades.len() <= next.trades.len()
            &&& forall|k: int|
                0 <= k < book.trades.len() ==> #[trigger] next.trades[k] == book.trades[k]
            &&& forall|k: int|
                book.trades.len() <= k < next.trades.len() ==> (
                #[trigger] next.trades[k]).exit_timestamp_ns == now
        },
    decreases batch.len(),
{
    if batch.len() > 0 {
        lemma_after_exits(book, moment, now, batch.drop_last());
        if let Ok(middle) = book.after(moment, now, batch.drop_last()) {
            let any = |active: ActiveExposure| true;
            lemma_settled_hold(middle.active, moment, now, batch.last(), any);
        }
    }
}

/// Trades that a time adds are completed at that time.
proof fn lemma_step_exits(
    book: Book,
    instruments: Set<Seq<char>>,
    now: u64,
    batch: Seq<Quote>,
    given: Result<Seq<ExposureOrder>, Seq<char>>,
)
    ensures
        replay::stepped(book, instruments, now, batch, given) matches Ok(next) ==> {
            &&& book.trades.len() <= next.trades.len()
            &&& forall|k: int|
                0 <= k < book.trades.len() ==> #[trigger] next.trades[k] == book.trades[k]
            &&& forall|k: int|
                book.trades.len() <= k < next.trades.len() ==> (
                #[trigger] next.trades[k]).exit_timestamp_ns == now
        },
{
    lemma_after_exits(book, Moment::Open, now, batch);
    if let Ok(opened) = book.after(Moment::Open, now, batch) {
        lemma_after_exits(opened, Moment::Stop, now, batch);
        if let Ok(stopped) = opened.after(Moment::Stop, now, batch) {
            if let Ok(orders) = given {
                let queue = arrange::arranged(orders);
                laws::lemma_orders_keep_trades(stopped, instruments, now, queue);
                if let Ok(waiting) = stopped.with_orders(instruments, now, queue) {
                    lemma_after_exits(waiting, Moment::Close, now, batch);
                }
            }
        }
    }
}

/// The trades up to a time are settled once all times up to it are replayed.
proof fn lemma_trades_settled(
    instruments: Set<Seq<char>>,
    times: Seq<u64>,
    batches: Seq<Seq<Quote>>,
    answers: Seq<Result<Seq<ExposureOrder>, Seq<char>>>,
    through_ns: u64,
    count: int,
    later: int,
    trade: ComponentTrade,
)
    requires
        0 <= count <= later <= times.len(),
        forall|i: int| count <= i < times.len() ==> #[trigger] times[i] > through_ns,
        replay::replayed(instruments, times, batches, answers, later) is Ok,
        trade.exit_timestamp_ns <= through_ns,
    ensures
        replay::replayed(instruments, times, batches, answers, count) is Ok,
        replay::replayed(instruments, times, batches, answers, later)->Ok_0.trades.contains(trade)
            <==> replay::replayed(
            instruments,
            times,
            batches,
            answers,
            count,
        )->Ok_0.trades.contains(trade),
    decreases later - count,
{
    if count < later {
        lemma_trades_settled(
            instruments,
            times,
            batches,
            answers,
            through_ns,
            count,
            later - 1,
            trade,
        );
        let book = replay::replayed(instruments, times, batches, answers, later - 1)->Ok_0;
        let next = replay::replayed(instruments, times, batches, answers, later)->Ok_0;
        lemma_step_exits(
            book,
            instruments,
            times[later - 1],
            batches[later - 1],
            answers[later - 1],
        );
        if book.trades.contains(trade) {
            let k = choose|k: int| 0 <= k < book.trades.len() && book.trades[k] == trade;
            assert(next.trades[k] == trade);
        }
        if next.trades.contains(trade) {
            let k = choose|k: int| 0 <= k < next.trades.len() && next.trades[k] == trade;
            if k < book.trades.len() {
                assert(book.trades[k] == trade);
            }
        }
    }
}

/// A result lists the trades of its book.
proof fn lemma_lists_trades(trades: Seq<ComponentTrade>, trade: ComponentTrade)
    ensures
        arrange::arranged(trades).contains(trade) <==> trades.contains(trade),
{
    broadcast use vstd::seq_lib::group_to_multiset_ensures;

    arrange::law_arranged(trades);
    assert(arrange::arranged(trades).to_multiset().contains(trade) <==> trades.to_multiset()
        .contains(trade));
}

/// Bars after a time reach nothing that happened up to it. Two replays of a
/// deterministic strategy that starts alike, over histories that agree up to a
/// time, ask it at the same times up to that time, show it the same bars, get
/// the same answers, and have the same trades among those completed by then.
pub proof fn law_later_bars_change_nothing_earlier<S: FixedCapitalStrategy>(
    a: Record<S>,
    b: Record<S>,
    through_ns: u64,
)
    requires
        a.took_place(),
        b.took_place(),
        a.before == b.before,
        deterministic::<S>(),
        agree_through(a.histories, b.histories, through_ns),
    ensures
        forall|i: int|
            0 <= i < a.times.len() && #[trigger] a.times[i] <= through_ns ==> {
                &&& i < b.times.len()
                &&& b.times[i] == a.times[i]
                &&& b.batches[i] == a.batches[i]
                &&& b.states[i] == a.states[i]
                &&& b.answers[i] == a.answers[i]
            },
        forall|i: int|
            0 <= i < b.times.len() && #[trigger] b.times[i] <= through_ns ==> i < a.times.len()
                && a.times[i] == b.times[i],
        forall|trade: ComponentTrade|
            trade.exit_timestamp_ns <= through_ns ==> (
            #[trigger] a.result.trades@.contains(trade) <==> b.result.trades@.contains(trade)),
{
    assert forall|i: int| 0 <= i < a.times.len() && #[trigger] a.times[i] <= through_ns implies {
        &&& i < b.times.len()
        &&& b.times[i] == a.times[i]
        &&& b.batches[i] == a.batches[i]
        &&& b.states[i] == a.states[i]
        &&& b.answers[i] == a.answers[i]
    } by {
        lemma_same_telling(a, b, through_ns, i);
    }
    lemma_agreement_turns(a.histories, b.histories, through_ns);
    assert forall|i: int| 0 <= i < b.times.len() && #[trigger] b.times[i] <= through_ns implies i
        < a.times.len() && a.times[i] == b.times[i] by {
        lemma_same_telling(b, a, through_ns, i);
    }
    law_strategy_is_asked_at_every_time(a);
    law_strategy_is_asked_at_every_time(b);
    let count = lemma_times_through(a.times, through_ns);
    assert(count <= b.times.len()) by {
        if count > 0 {
            assert(a.times[count - 1] <= through_ns);
        }
    }
    assert forall|i: int| count <= i < b.times.len() implies #[trigger] b.times[i]
        > through_ns by {
        if b.times[i] <= through_ns {
            assert(a.times[i] == b.times[i]);
        }
    }
    let known = run::known(a.histories);
    assert forall|i: int| 0 <= i < count implies #[trigger] a.times[i] == b.times[i]
        && a.batches[i] == b.batches[i] && a.answers[i] == b.answers[i] by {
        assert(a.times[i] <= through_ns);
    }
    run::law_causal(
        known,
        a.times,
        a.batches,
        a.answers,
        b.times,
        b.batches,
        b.answers,
        count,
    );
    let first = lemma_result_book(
        a.result,
        a.days,
        a.configured,
        a.histories,
        a.data_size_bytes,
        a.times,
        a.batches,
        a.answers,
    );
    let second = lemma_result_book(
        b.result,
        b.days,
        b.configured,
        b.histories,
        b.data_size_bytes,
        b.times,
        b.batches,
        b.answers,
    );
    assert forall|trade: ComponentTrade| trade.exit_timestamp_ns <= through_ns implies (
    #[trigger] a.result.trades@.contains(trade) <==> b.result.trades@.contains(trade)) by {
        lemma_trades_settled(
            known,
            a.times,
            a.batches,
            a.answers,
            through_ns,
            count,
            a.times.len() as int,
            trade,
        );
        lemma_trades_settled(
            known,
            b.times,
            b.batches,
            b.answers,
            through_ns,
            count,
            b.times.len() as int,
            trade,
        );
        lemma_lists_trades(first.trades, trade);
        lemma_lists_trades(second.trades, trade);
    }
}

} // verus!
