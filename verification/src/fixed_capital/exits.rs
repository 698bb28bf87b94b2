//! How exposures end: at the open or close that was planned, or at a stop, which
//! is never passed over.

use super::conduct;
use super::conduct::Record;
use super::replay;
use super::replay::{ActiveExposure, Book, Moment, PendingExposure};
use super::run;
use super::timeline;
use super::{
    CensoredExposure, ComponentTrade, ExitPlan, ExitReason, ExposureOrder, ExposureSide,
    FixedCapitalStrategy, HistoryBar, InstrumentHistory, Quote, ScheduledFill,
};
use crate::arrange;
use crate::binary64::Binary64;
use vstd::prelude::*;

verus! {

/// When a plan ends at the latest.
pub open spec fn planned_end(exit: ExitPlan) -> u64 {
    match exit {
        ExitPlan::At { timestamp_ns, .. } => timestamp_ns,
        ExitPlan::StopOrAt { timestamp_ns, .. } => timestamp_ns,
    }
}

/// Which price of its last bar a plan asks for.
pub open spec fn planned_fill(exit: ExitPlan) -> ScheduledFill {
    match exit {
        ExitPlan::At { fill, .. } => fill,
        ExitPlan::StopOrAt { fill, .. } => fill,
    }
}

/// Whether a stop at a level ends a position at a price on a bar.
///
/// A long position is stopped on a bar that reaches down to the level, never above
/// the level: at the level itself where the bar opens at or above it, and at the
/// open where the bar opens below. A short position is stopped the other way round.
pub open spec fn is_stopped(
    side: ExposureSide,
    level: Binary64,
    bar: HistoryBar,
    price: Binary64,
) -> bool {
    match side {
        ExposureSide::Long => {
            &&& bar.low.value() <= level.value()
            &&& price.value() <= level.value()
            &&& !bar.open.nan() && level.value() <= bar.open.value() ==> price.value()
                == level.value()
            &&& !bar.open.nan() && bar.open.value() <= level.value() ==> price.value()
                == bar.open.value()
        },
        ExposureSide::Short => {
            &&& level.value() <= bar.high.value()
            &&& level.value() <= price.value()
            &&& !bar.open.nan() && bar.open.value() <= level.value() ==> price.value()
                == level.value()
            &&& !bar.open.nan() && level.value() <= bar.open.value() ==> price.value()
                == bar.open.value()
        },
    }
}

/// Whether a bar stays on the safe side of an order's stop.
pub open spec fn is_untouched(order: ExposureOrder, bar: HistoryBar) -> bool {
    order.exit matches ExitPlan::StopOrAt { stop_price, .. } ==> match order.side {
        ExposureSide::Long => !bar.low.nan() && !stop_price.nan() ==> stop_price.value()
            < bar.low.value(),
        ExposureSide::Short => !bar.high.nan() && !stop_price.nan() ==> bar.high.value()
            < stop_price.value(),
    }
}

/// Whether all bars of an order's instrument from a time on and before another
/// stay on the safe side of its stop.
pub open spec fn is_untouched_between(
    histories: Seq<InstrumentHistory>,
    order: ExposureOrder,
    from_ns: u64,
    before_ns: int,
) -> bool {
    forall|bar: HistoryBar| #[trigger]
        conduct::has_bar(histories, order.instrument@, bar) && from_ns <= bar.timestamp_ns
            < before_ns ==> is_untouched(order, bar)
}

/// Whether a trade ends on a bar as its order says.
pub open spec fn ends_on(trade: ComponentTrade, order: ExposureOrder, bar: HistoryBar) -> bool {
    &&& bar.timestamp_ns == trade.exit_timestamp_ns
    &&& trade.exit_timestamp_ns <= planned_end(order.exit)
    &&& match trade.exit_reason {
        ExitReason::ScheduledOpen => {
            &&& trade.exit_timestamp_ns == planned_end(order.exit)
            &&& planned_fill(order.exit) == ScheduledFill::Open
            &&& trade.exit_price == bar.open
        },
        ExitReason::ScheduledClose => {
            &&& trade.exit_timestamp_ns == planned_end(order.exit)
            &&& planned_fill(order.exit) == ScheduledFill::Close
            &&& trade.exit_price == bar.close
            &&& is_untouched(order, bar)
        },
        ExitReason::Stop => {
            &&& order.exit matches ExitPlan::StopOrAt { stop_price, .. } && is_stopped(
                order.side,
                stop_price,
                bar,
                trade.exit_price,
            )
            &&& trade.exit_timestamp_ns == planned_end(order.exit) ==> planned_fill(order.exit)
                == ScheduledFill::Close
        },
    }
}

/// Whether a trade carries out an order that was given, and ends as it says on a
/// bar of its instrument, no earlier bar since the entry having touched its stop.
pub open spec fn ends_rightly(
    trade: ComponentTrade,
    histories: Seq<InstrumentHistory>,
    times: Seq<u64>,
    answers: Seq<Result<Seq<ExposureOrder>, Seq<char>>>,
) -> bool {
    exists|order: ExposureOrder, bar: HistoryBar| #[trigger]
        ends_on(trade, order, bar) && conduct::carries_out(trade, order) && conduct::emitted(
            times,
            answers,
            times.len() as int,
            order,
            trade.signal_timestamp_ns,
        ) && conduct::has_bar(histories, trade.instrument@, bar) && is_untouched_between(
            histories,
            order,
            trade.entry_timestamp_ns,
            trade.exit_timestamp_ns as int,
        )
}

/// Whether an exposure that was entered and is left belongs to an order that was
/// given and whose end was not reached: none of the bars touched its stop.
pub open spec fn is_left_rightly(
    exposure: CensoredExposure,
    entry_ns: u64,
    histories: Seq<InstrumentHistory>,
    times: Seq<u64>,
    answers: Seq<Result<Seq<ExposureOrder>, Seq<char>>>,
) -> bool {
    exists|order: ExposureOrder| #[trigger]
        conduct::belongs_to(exposure, order) && conduct::emitted(
            times,
            answers,
            times.len() as int,
            order,
            exposure.signal_timestamp_ns,
        ) && times.last() < planned_end(order.exit) && is_untouched_between(
            histories,
            order,
            entry_ns,
            times.last() + 1,
        )
}

/// Whether something holds of the trade that completes an exposure on a bar, if
/// one does.
spec fn settles(
    active: ActiveExposure,
    moment: Moment,
    now: u64,
    quote: Quote,
    t: spec_fn(ComponentTrade) -> bool,
) -> bool {
    replay::exit_price(active, moment, now, quote) matches Some(price) ==> (replay::trade_of(
        active,
        now,
        price,
        moment.reason(),
    ) matches Some(trade) ==> t(trade))
}

spec fn entry(pending: PendingExposure, now: u64, quote: Quote) -> ActiveExposure {
    ActiveExposure {
        pending,
        entry_timestamp_ns: now,
        entry_price: quote.bar.open,
    }
}

spec fn all_are(
    book: Book,
    p: spec_fn(PendingExposure) -> bool,
    q: spec_fn(ActiveExposure) -> bool,
    t: spec_fn(ComponentTrade) -> bool,
) -> bool {
    &&& forall|i: int| 0 <= i < book.pending.len() ==> p(#[trigger] book.pending[i])
    &&& forall|i: int| 0 <= i < book.active.len() ==> q(#[trigger] book.active[i])
    &&& forall|i: int| 0 <= i < book.trades.len() ==> t(#[trigger] book.trades[i])
}

proof fn lemma_settled(
    active: Seq<ActiveExposure>,
    moment: Moment,
    now: u64,
    quote: Quote,
    q: spec_fn(ActiveExposure) -> bool,
    t: spec_fn(ComponentTrade) -> bool,
)
    requires
        forall|i: int| 0 <= i < active.len() ==> q(#[trigger] active[i]),
        forall|a: ActiveExposure| #[trigger] q(a) ==> settles(a, moment, now, quote, t),
    ensures
        replay::settled(active, moment, now, quote) matches Some(split) ==> {
            &&& forall|i: int|
                0 <= i < split.0.len() ==> q(#[trigger] split.0[i]) && replay::exit_price(
                    split.0[i],
                    moment,
                    now,
                    quote,
                ) is None && active.contains(split.0[i])
            &&& forall|i: int| 0 <= i < split.1.len() ==> t(#[trigger] split.1[i])
        },
    decreases active.len(),
{
    if active.len() > 0 {
        let rest = active.drop_last();
        assert forall|i: int| 0 <= i < rest.len() implies q(#[trigger] rest[i]) by {
            assert(rest[i] == active[i]);
        }
        lemma_settled(rest, moment, now, quote, q, t);
        assert(q(active[active.len() - 1]));
        assert(settles(active.last(), moment, now, quote, t));
        if let Some(split) = replay::settled(rest, moment, now, quote) {
            assert forall|i: int| 0 <= i < split.0.len() implies active.contains(
                #[trigger] split.0[i],
            ) by {
                let m = choose|m: int| 0 <= m < rest.len() && rest[m] == split.0[i];
                assert(active[m] == split.0[i]);
            }
            assert(active.contains(active.last()));
        }
    }
}

proof fn lemma_entered(
    pending: Seq<PendingExposure>,
    now: u64,
    quote: Quote,
    p: spec_fn(PendingExposure) -> bool,
    q: spec_fn(ActiveExposure) -> bool,
)
    requires
        forall|i: int| 0 <= i < pending.len() ==> p(#[trigger] pending[i]),
        forall|x: PendingExposure| #[trigger]
            p(x) && x.order.instrument@ == quote.instrument && planned_end(x.order.exit) > now
                ==> q(entry(x, now, quote)),
    ensures
        replay::entered(pending, now, quote) matches Ok(split) ==> {
            &&& forall|i: int| 0 <= i < split.0.len() ==> p(#[trigger] split.0[i])
            &&& forall|i: int|
                0 <= i < split.1.len() ==> q(#[trigger] split.1[i]) && planned_end(
                    split.1[i].pending.order.exit,
                ) > now
        },
    decreases pending.len(),
{
    if pending.len() > 0 {
        let rest = pending.drop_last();
        assert forall|i: int| 0 <= i < rest.len() implies p(#[trigger] rest[i]) by {
            assert(rest[i] == pending[i]);
        }
        lemma_entered(rest, now, quote, p, q);
        assert(p(pending[pending.len() - 1]));
    }
}

/// A moment of a batch. What stays is completed by none of its bars.
proof fn lemma_after(
    book: Book,
    moment: Moment,
    now: u64,
    batch: Seq<Quote>,
    p: spec_fn(PendingExposure) -> bool,
    q: spec_fn(ActiveExposure) -> bool,
    t: spec_fn(ComponentTrade) -> bool,
)
    requires
        all_are(book, p, q, t),
        forall|b: int, x: PendingExposure|
            moment == Moment::Open && 0 <= b < batch.len() && #[trigger] p(x)
                && x.order.instrument@ == (#[trigger] batch[b]).instrument && planned_end(
                x.order.exit,
            ) > now ==> q(entry(x, now, batch[b])),
        forall|b: int, a: ActiveExposure|
            0 <= b < batch.len() && #[trigger] q(a) ==> settles(
                a,
                moment,
                now,
                #[trigger] batch[b],
                t,
            ),
    ensures
        book.after(moment, now, batch) matches Ok(next) ==> {
            &&& all_are(next, p, q, t)
            &&& forall|i: int, b: int|
                0 <= i < next.active.len() && 0 <= b < batch.len() ==> replay::exit_price(
                    #[trigger] next.active[i],
                    moment,
                    now,
                    #[trigger] batch[b],
                ) is None
        },
    decreases batch.len(),
{
    if batch.len() > 0 {
        let fewer = batch.drop_last();
        let quote = batch.last();
        assert(batch[batch.len() - 1] == quote);
        assert forall|b: int, x: PendingExposure|
            moment == Moment::Open && 0 <= b < fewer.len() && #[trigger] p(x)
                && x.order.instrument@ == (#[trigger] fewer[b]).instrument && planned_end(
                x.order.exit,
            ) > now implies q(entry(x, now, fewer[b])) by {
            assert(fewer[b] == batch[b]);
        }
        assert forall|b: int, a: ActiveExposure|
            0 <= b < fewer.len() && #[trigger] q(a) implies settles(
            a,
            moment,
            now,
            #[trigger] fewer[b],
            t,
        ) by {
            assert(fewer[b] == batch[b]);
        }
        lemma_after(book, moment, now, fewer, p, q, t);
        if let Ok(middle) = book.after(moment, now, fewer) {
            assert forall|a: ActiveExposure| #[trigger] q(a) implies settles(
                a,
                moment,
                now,
                quote,
                t,
            ) by {
                assert(settles(a, moment, now, batch[batch.len() - 1], t));
            }
            lemma_settled(middle.active, moment, now, quote, q, t);
            if let Some(split) = replay::settled(middle.active, moment, now, quote) {
                let booked = middle.trades + split.1;
                assert forall|i: int| 0 <= i < booked.len() implies t(#[trigger] booked[i]) by {
                    if i >= middle.trades.len() {
                        assert(booked[i] == split.1[i - middle.trades.len()]);
                    } else {
                        assert(booked[i] == middle.trades[i]);
                    }
                }
                assert forall|i: int, b: int|
                    0 <= i < split.0.len() && 0 <= b < batch.len() implies replay::exit_price(
                    #[trigger] split.0[i],
                    moment,
                    now,
                    #[trigger] batch[b],
                ) is None by {
                    if b < fewer.len() {
                        assert(fewer[b] == batch[b]);
                        let m = choose|m: int|
                            0 <= m < middle.active.len() && middle.active[m] == split.0[i];
                        assert(replay::exit_price(middle.active[m], moment, now, fewer[b])
                            is None);
                    }
                }
                if moment == Moment::Open {
                    assert forall|x: PendingExposure| #[trigger]
                        p(x) && x.order.instrument@ == quote.instrument && planned_end(
                            x.order.exit,
                        ) > now implies q(entry(x, now, quote)) by {
                        assert(batch[batch.len() - 1].instrument == x.order.instrument@);
                    }
                    lemma_entered(middle.pending, now, quote, p, q);
                    if let Ok(new) = replay::entered(middle.pending, now, quote) {
                        let all = split.0 + new.1;
                        assert forall|i: int| 0 <= i < all.len() implies q(#[trigger] all[i]) by {
                            if i >= split.0.len() {
                                assert(all[i] == new.1[i - split.0.len()]);
                            } else {
                                assert(all[i] == split.0[i]);
                            }
                        }
                        assert forall|i: int, b: int|
                            0 <= i < all.len() && 0 <= b < batch.len() implies replay::exit_price(
                            #[trigger] all[i],
                            moment,
                            now,
                            #[trigger] batch[b],
                        ) is None by {
                            if i >= split.0.len() {
                                assert(all[i] == new.1[i - split.0.len()]);
                            } else {
                                assert(all[i] == split.0[i]);
                            }
                        }
                    }
                }
            }
        }
    }
}

proof fn lemma_orders(
    book: Book,
    instruments: Set<Seq<char>>,
    now: u64,
    orders: Seq<ExposureOrder>,
    p: spec_fn(PendingExposure) -> bool,
    q: spec_fn(ActiveExposure) -> bool,
    t: spec_fn(ComponentTrade) -> bool,
)
    requires
        all_are(book, p, q, t),
        forall|j: int|
            0 <= j < orders.len() ==> p(
                PendingExposure { order: #[trigger] orders[j], signal_timestamp_ns: now },
            ),
    ensures
        book.with_orders(instruments, now, orders) matches Ok(next) ==> all_are(next, p, q, t),
    decreases orders.len(),
{
    if orders.len() > 0 {
        let fewer = orders.drop_last();
        assert forall|j: int| 0 <= j < fewer.len() implies p(
            PendingExposure { order: #[trigger] fewer[j], signal_timestamp_ns: now },
        ) by {
            assert(fewer[j] == orders[j]);
        }
        lemma_orders(book, instruments, now, fewer, p, q, t);
        assert(orders[orders.len() - 1] == orders.last());
    }
}

/// What is not missed lies no earlier.
proof fn lemma_earliest(active: Seq<ActiveExposure>, fill: ScheduledFill, before_ns: int, i: int)
    requires
        replay::earliest(active, fill, before_ns) is None,
        0 <= i < active.len(),
        planned_fill(active[i].pending.order.exit) == fill,
    ensures
        planned_end(active[i].pending.order.exit) >= before_ns,
    decreases active.len(),
{
    if i < active.len() - 1 {
        lemma_earliest(active.drop_last(), fill, before_ns, i);
    }
}

proof fn lemma_missed(active: Seq<ActiveExposure>, before_ns: int, i: int)
    requires
        replay::missed(active, before_ns) is None,
        0 <= i < active.len(),
    ensures
        planned_end(active[i].pending.order.exit) >= before_ns,
{
    lemma_earliest(
        active,
        planned_fill(active[i].pending.order.exit),
        before_ns,
        i,
    );
}

/// Whether an exposure runs rightly: its order was given, and no bar since the
/// entry has touched its stop.
spec fn runs(
    histories: Seq<InstrumentHistory>,
    times: Seq<u64>,
    answers: Seq<Result<Seq<ExposureOrder>, Seq<char>>>,
    active: ActiveExposure,
    before_ns: int,
    end_ns: int,
) -> bool {
    let order = active.pending.order;
    &&& conduct::emitted(
        times,
        answers,
        times.len() as int,
        order,
        active.pending.signal_timestamp_ns,
    )
    &&& is_untouched_between(histories, order, active.entry_timestamp_ns, before_ns)
    &&& planned_end(order.exit) >= end_ns
}

spec fn was_given(
    times: Seq<u64>,
    answers: Seq<Result<Seq<ExposureOrder>, Seq<char>>>,
    pending: PendingExposure,
) -> bool {
    conduct::emitted(
        times,
        answers,
        times.len() as int,
        pending.order,
        pending.signal_timestamp_ns,
    )
}

/// The trade that completes an exposure on a bar of its time ends rightly.
proof fn lemma_settles(
    histories: Seq<InstrumentHistory>,
    times: Seq<u64>,
    answers: Seq<Result<Seq<ExposureOrder>, Seq<char>>>,
    active: ActiveExposure,
    moment: Moment,
    now: u64,
    quote: Quote,
)
    requires
        runs(
            histories,
            times,
            answers,
            active,
            if moment == Moment::Close {
                now + 1
            } else {
                now as int
            },
            now as int,
        ),
        active.entry_timestamp_ns <= now,
        conduct::has_bar(histories, quote.instrument, quote.bar),
        quote.bar.timestamp_ns == now,
        moment == Moment::Stop ==> replay::exit_price(active, Moment::Open, now, quote) is None,
    ensures
        settles(
            active,
            moment,
            now,
            quote,
            |trade: ComponentTrade| ends_rightly(trade, histories, times, answers),
        ),
{
    let order = active.pending.order;
    if let Some(price) = replay::exit_price(active, moment, now, quote) {
        if let Some(trade) = replay::trade_of(active, now, price, moment.reason()) {
            assert(conduct::carries_out(trade, order));
            if moment == Moment::Close {
                assert(is_untouched(order, quote.bar));
            }
            assert(ends_on(trade, order, quote.bar));
            assert(is_untouched_between(
                histories,
                order,
                trade.entry_timestamp_ns,
                trade.exit_timestamp_ns as int,
            ));
        }
    }
}

/// One time of a replay.
proof fn lemma_step(
    histories: Seq<InstrumentHistory>,
    times: Seq<u64>,
    batch: Seq<Quote>,
    answers: Seq<Result<Seq<ExposureOrder>, Seq<char>>>,
    instruments: Set<Seq<char>>,
    book: Book,
    at: int,
)
    requires
        0 <= at < times.len(),
        timeline::is_batch(batch, histories, times[at]),
        all_are(
            book,
            |x: PendingExposure| was_given(times, answers, x),
            |a: ActiveExposure|
                runs(histories, times, answers, a, times[at] as int, 0)
                    && a.entry_timestamp_ns <= times[at],
            |trade: ComponentTrade| ends_rightly(trade, histories, times, answers),
        ),
    ensures
        replay::stepped(book, instruments, times[at], batch, answers[at]) matches Ok(next)
            ==> all_are(
            next,
            |x: PendingExposure| was_given(times, answers, x),
            |a: ActiveExposure|
                runs(histories, times, answers, a, times[at] + 1, 0)
                    && a.entry_timestamp_ns <= times[at],
            |trade: ComponentTrade| ends_rightly(trade, histories, times, answers),
        ),
{
    let now = times[at];
    let p = |x: PendingExposure| was_given(times, answers, x);
    let t = |trade: ComponentTrade| ends_rightly(trade, histories, times, answers);
    let q0 = |a: ActiveExposure|
        runs(histories, times, answers, a, now as int, 0) && a.entry_timestamp_ns <= now;
    let q1 = |a: ActiveExposure|
        runs(histories, times, answers, a, now as int, now as int) && a.entry_timestamp_ns <= now;
    let stays = |a: ActiveExposure|
        q1(a) && forall|b: int|
            0 <= b < batch.len() ==> replay::exit_price(
                a,
                Moment::Open,
                now,
                #[trigger] batch[b],
            ) is None;
    let q2 = |a: ActiveExposure|
        runs(histories, times, answers, a, now + 1, now as int) && a.entry_timestamp_ns <= now;
    let q3 = |a: ActiveExposure|
        runs(histories, times, answers, a, now + 1, 0) && a.entry_timestamp_ns <= now;
    assert(all_are(book, p, q0, t));
    if replay::missed(book.active, now as int) is None {
        assert forall|i: int| 0 <= i < book.active.len() implies q1(#[trigger] book.active[i]) by {
            assert(q0(book.active[i]));
            lemma_missed(book.active, now as int, i);
        }
        assert forall|b: int| 0 <= b < batch.len() implies conduct::has_bar(
            histories,
            (#[trigger] batch[b]).instrument,
            batch[b].bar,
        ) && batch[b].bar.timestamp_ns == now by {
            conduct::lemma_batch_bar(batch, histories, now, b);
        }
        assert forall|b: int, a: ActiveExposure|
            0 <= b < batch.len() && #[trigger] q1(a) implies settles(
            a,
            Moment::Open,
            now,
            #[trigger] batch[b],
            t,
        ) by {
            lemma_settles(histories, times, answers, a, Moment::Open, now, batch[b]);
        }
        assert forall|b: int, a: ActiveExposure|
            0 <= b < batch.len() && #[trigger] stays(a) implies settles(
            a,
            Moment::Stop,
            now,
            #[trigger] batch[b],
            t,
        ) by {
            lemma_settles(histories, times, answers, a, Moment::Stop, now, batch[b]);
        }
        assert forall|b: int, a: ActiveExposure|
            0 <= b < batch.len() && #[trigger] q2(a) implies settles(
            a,
            Moment::Close,
            now,
            #[trigger] batch[b],
            t,
        ) by {
            lemma_settles(histories, times, answers, a, Moment::Close, now, batch[b]);
        }
        lemma_after(book, Moment::Open, now, batch, p, q1, t);
        if let Ok(opened) = book.after(Moment::Open, now, batch) {
            assert forall|i: int| 0 <= i < opened.active.len() implies stays(
                #[trigger] opened.active[i],
            ) by {
                assert(q1(opened.active[i]));
            }
            assert(all_are(opened, p, stays, t));
            lemma_after(opened, Moment::Stop, now, batch, p, stays, t);
            if let Ok(asked) = opened.after(Moment::Stop, now, batch) {
                assert forall|i: int| 0 <= i < asked.active.len() implies q2(
                    #[trigger] asked.active[i],
                ) by {
                    let a = asked.active[i];
                    let order = a.pending.order;
                    assert(stays(a));
                    assert(q1(a));
                    assert forall|bar: HistoryBar| #[trigger]
                        conduct::has_bar(histories, order.instrument@, bar)
                            && a.entry_timestamp_ns <= bar.timestamp_ns < now + 1 implies
                        is_untouched(order, bar) by {
                        if bar.timestamp_ns == now {
                            let b = conduct::lemma_in_batch(
                                batch,
                                histories,
                                now,
                                order.instrument@,
                                bar,
                            );
                            assert(replay::exit_price(asked.active[i], Moment::Stop, now, batch[b])
                                is None);
                        }
                    }
                }
                if let Ok(orders) = answers[at] {
                    let queue = arrange::arranged(orders);
                    arrange::law_arranged(orders);
                    assert forall|j: int| 0 <= j < queue.len() implies p(
                        PendingExposure { order: #[trigger] queue[j], signal_timestamp_ns: now },
                    ) by {
                        arrange::lemma_arranged_contains(orders, j);
                        let m = choose|m: int| 0 <= m < orders.len() && orders[m] == queue[j];
                        assert(answers[at]->Ok_0[m] == queue[j]);
                    }
                    lemma_orders(asked, instruments, now, queue, p, q2, t);
                    if let Ok(waiting) = asked.with_orders(instruments, now, queue) {
                        lemma_after(waiting, Moment::Close, now, batch, p, q2, t);
                        if let Ok(next) = waiting.after(Moment::Close, now, batch) {
                            assert forall|i: int| 0 <= i < next.active.len() implies q3(
                                #[trigger] next.active[i],
                            ) by {
                                assert(q2(next.active[i]));
                            }
                            assert(all_are(next, p, q3, t));
                        }
                    }
                }
            }
        }
    }
}

proof fn lemma_exits(
    histories: Seq<InstrumentHistory>,
    times: Seq<u64>,
    batches: Seq<Seq<Quote>>,
    answers: Seq<Result<Seq<ExposureOrder>, Seq<char>>>,
    instruments: Set<Seq<char>>,
    count: int,
)
    requires
        run::starts_timeline(times, histories),
        batches.len() == times.len(),
        answers.len() == times.len(),
        forall|i: int|
            0 <= i < times.len() ==> timeline::is_batch(#[trigger] batches[i], histories, times[i]),
        0 < count <= times.len(),
    ensures
        replay::replayed(instruments, times, batches, answers, count) matches Ok(book) ==> all_are(
            book,
            |x: PendingExposure| was_given(times, answers, x),
            |a: ActiveExposure|
                runs(histories, times, answers, a, times[count - 1] + 1, 0)
                    && a.entry_timestamp_ns <= times[count - 1],
            |trade: ComponentTrade| ends_rightly(trade, histories, times, answers),
        ),
    decreases count,
{
    let at = count - 1;
    let now = times[at];
    let p = |x: PendingExposure| was_given(times, answers, x);
    let t = |trade: ComponentTrade| ends_rightly(trade, histories, times, answers);
    let q0 = |a: ActiveExposure|
        runs(histories, times, answers, a, now as int, 0) && a.entry_timestamp_ns <= now;
    if let Ok(book) = replay::replayed(instruments, times, batches, answers, at) {
        if at > 0 {
            lemma_exits(histories, times, batches, answers, instruments, at);
            let before = times[at - 1];
            let q = |a: ActiveExposure|
                runs(histories, times, answers, a, before + 1, 0) && a.entry_timestamp_ns
                    <= before;
            assert(all_are(book, p, q, t));
            assert(before < now);
            assert forall|i: int| 0 <= i < book.active.len() implies q0(
                #[trigger] book.active[i],
            ) by {
                let a = book.active[i];
                let order = a.pending.order;
                assert(q(a));
                assert forall|bar: HistoryBar| #[trigger]
                    conduct::has_bar(histories, order.instrument@, bar) && a.entry_timestamp_ns
                        <= bar.timestamp_ns < now implies is_untouched(order, bar) by {
                    if bar.timestamp_ns > before {
                        assert(conduct::quiet(
                            histories,
                            order.instrument@,
                            before,
                            before + 1,
                        ));
                        conduct::lemma_quiet_between(
                            histories,
                            times,
                            at,
                            order.instrument@,
                            before,
                        );
                    }
                }
            }
        }
        assert(all_are(book, p, q0, t));
        lemma_step(histories, times, batches[at], answers, instruments, book, at);
    }
}

/// Every trade ends as the order that it carries out says: at the open or the close
/// of the bar at its planned end, or by its stop before. On the last bar a planned open
/// comes before the stop, and the stop before a planned close. A long position
/// is stopped on the first bar since its entry that reaches down to the level, at
/// the level or, where the bar opens below, at the open; a short one on the first
/// that reaches up to it, at the level or, where the bar opens above, at the open.
/// An exposure that was entered and is left had no bar that touched its stop, and
/// its planned end lies after the last bar.
pub proof fn law_trades_end_as_ordered<S: FixedCapitalStrategy>(record: Record<S>)
    requires
        record.took_place(),
    ensures
        forall|k: int|
            0 <= k < record.result.trades@.len() ==> ends_rightly(
                #[trigger] record.result.trades@[k],
                record.histories,
                record.times,
                record.answers,
            ),
        forall|k: int|
            0 <= k < record.result.censored@.len() ==> ((
            #[trigger] record.result.censored@[k]).entry_timestamp_ns matches Some(entry_ns)
                ==> is_left_rightly(
                record.result.censored@[k],
                entry_ns,
                record.histories,
                record.times,
                record.answers,
            )),
{
    let result = record.result;
    let histories = record.histories;
    let times = record.times;
    let answers = record.answers;
    let count = times.len() as int;
    let book = conduct::lemma_result_book(
        result,
        record.days,
        record.configured,
        histories,
        record.data_size_bytes,
        times,
        record.batches,
        answers,
    );
    lemma_exits(histories, times, record.batches, answers, run::known(histories), count);
    let p = |x: PendingExposure| was_given(times, answers, x);
    let q = |a: ActiveExposure|
        runs(histories, times, answers, a, times[count - 1] + 1, 0) && a.entry_timestamp_ns
            <= times[count - 1];
    let t = |trade: ComponentTrade| ends_rightly(trade, histories, times, answers);
    assert(all_are(book, p, q, t));
    arrange::law_arranged(book.trades);
    assert forall|k: int| 0 <= k < result.trades@.len() implies ends_rightly(
        #[trigger] result.trades@[k],
        histories,
        times,
        answers,
    ) by {
        arrange::lemma_arranged_contains(book.trades, k);
        let m = choose|m: int| 0 <= m < book.trades.len() && book.trades[m] == result.trades@[k];
        assert(t(book.trades[m]));
    }
    arrange::law_arranged(conduct::leftovers(book));
    assert forall|k: int| 0 <= k < result.censored@.len() implies ((
    #[trigger] result.censored@[k]).entry_timestamp_ns matches Some(entry_ns) ==> is_left_rightly(
        result.censored@[k],
        entry_ns,
        histories,
        times,
        answers,
    )) by {
        let found = result.censored@[k];
        arrange::lemma_arranged_contains(conduct::leftovers(book), k);
        let m = choose|m: int|
            0 <= m < conduct::leftovers(book).len() && conduct::leftovers(book)[m] == found;
        if m >= book.pending.len() {
            let i = m - book.pending.len();
            let a = book.active[i];
            assert(q(a));
            lemma_missed(book.active, times.last() + 1, i);
            assert(conduct::belongs_to(found, a.pending.order));
        }
    }
}

/// What is due on a bar ends on it: after the opens of a time no exposure is left that was to
/// end at the open of one of its bars, after the closes none that was to end at its close,
/// and after the stops none whose stop one of its bars has touched.
pub proof fn law_what_is_due_ends(
    book: Book,
    moment: Moment,
    now: u64,
    batch: Seq<Quote>,
    i: int,
    b: int,
)
    requires
        book.after(moment, now, batch) is Ok,
        0 <= i < book.after(moment, now, batch)->Ok_0.active.len(),
        0 <= b < batch.len(),
        book.after(moment, now, batch)->Ok_0.active[i].pending.order.instrument@
            == batch[b].instrument,
    ensures
        ({
            let order = book.after(moment, now, batch)->Ok_0.active[i].pending.order;
            match moment {
                Moment::Open => planned_end(order.exit) != now || planned_fill(order.exit)
                    != ScheduledFill::Open,
                Moment::Stop => is_untouched(order, batch[b].bar),
                Moment::Close => planned_end(order.exit) != now || planned_fill(order.exit)
                    != ScheduledFill::Close,
            }
        }),
{
    let p = |x: PendingExposure| true;
    let q = |a: ActiveExposure| true;
    let t = |trade: ComponentTrade| true;
    lemma_after(book, moment, now, batch, p, q, t);
    let next = book.after(moment, now, batch)->Ok_0;
    assert(replay::exit_price(next.active[i], moment, now, batch[b]) is None);
}

} // verus!
