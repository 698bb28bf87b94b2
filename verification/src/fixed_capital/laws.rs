//! What holds of every replay.

use super::daily;
use super::replay;
use super::replay::{ActiveExposure, Book, Moment, PendingExposure};
use super::{ComponentTrade, ExitReason, ExposureOrder, Quote, TradingDay};
use crate::ordered;
use crate::text;
use vstd::prelude::*;

verus! {

/// How many waiting orders carry an identifier.
pub open spec fn waiting(pending: Seq<PendingExposure>, id: Seq<char>) -> int
    decreases pending.len(),
{
    if pending.len() == 0 {
        0
    } else {
        waiting(pending.drop_last(), id) + if pending.last().order.id@ == id {
            1int
        } else {
            0
        }
    }
}

/// How many entered exposures carry an identifier.
pub open spec fn running(active: Seq<ActiveExposure>, id: Seq<char>) -> int
    decreases active.len(),
{
    if active.len() == 0 {
        0
    } else {
        running(active.drop_last(), id) + if active.last().pending.order.id@ == id {
            1int
        } else {
            0
        }
    }
}

/// How many trades carry an identifier.
pub open spec fn completed(trades: Seq<ComponentTrade>, id: Seq<char>) -> int
    decreases trades.len(),
{
    if trades.len() == 0 {
        0
    } else {
        completed(trades.drop_last(), id) + if trades.last().id@ == id {
            1int
        } else {
            0
        }
    }
}

/// How often an identifier stands in a book.
pub open spec fn standing(book: Book, id: Seq<char>) -> int {
    waiting(book.pending, id) + running(book.active, id) + completed(book.trades, id)
}

proof fn lemma_running_adds(a: Seq<ActiveExposure>, b: Seq<ActiveExposure>, id: Seq<char>)
    ensures
        running(a + b, id) == running(a, id) + running(b, id),
    decreases b.len(),
{
    if b.len() == 0 {
        assert(a + b =~= a);
    } else {
        assert((a + b).drop_last() =~= a + b.drop_last());
        lemma_running_adds(a, b.drop_last(), id);
    }
}

proof fn lemma_completed_adds(a: Seq<ComponentTrade>, b: Seq<ComponentTrade>, id: Seq<char>)
    ensures
        completed(a + b, id) == completed(a, id) + completed(b, id),
    decreases b.len(),
{
    if b.len() == 0 {
        assert(a + b =~= a);
    } else {
        assert((a + b).drop_last() =~= a + b.drop_last());
        lemma_completed_adds(a, b.drop_last(), id);
    }
}

proof fn lemma_settled_counts(
    active: Seq<ActiveExposure>,
    moment: Moment,
    timestamp_ns: u64,
    quote: Quote,
    id: Seq<char>,
)
    ensures
        replay::settled(active, moment, timestamp_ns, quote) matches Some(split) ==> running(
            active,
            id,
        ) == running(split.0, id) + completed(split.1, id),
    decreases active.len(),
{
    if active.len() > 0 {
        lemma_settled_counts(active.drop_last(), moment, timestamp_ns, quote, id);
        if let Some(split) = replay::settled(active.drop_last(), moment, timestamp_ns, quote) {
            assert(split.0.push(active.last()).drop_last() =~= split.0);
            if let Some(price) = replay::exit_price(active.last(), moment, timestamp_ns, quote) {
                if let Some(trade) = replay::trade_of(
                    active.last(),
                    timestamp_ns,
                    price,
                    moment.reason(),
                ) {
                    assert(split.1.push(trade).drop_last() =~= split.1);
                }
            }
        }
    }
}

proof fn lemma_entered_counts(
    pending: Seq<PendingExposure>,
    timestamp_ns: u64,
    quote: Quote,
    id: Seq<char>,
)
    ensures
        replay::entered(pending, timestamp_ns, quote) matches Ok(split) ==> waiting(pending, id)
            == waiting(split.0, id) + running(split.1, id),
    decreases pending.len(),
{
    if pending.len() > 0 {
        lemma_entered_counts(pending.drop_last(), timestamp_ns, quote, id);
        if let Ok(split) = replay::entered(pending.drop_last(), timestamp_ns, quote) {
            assert(split.0.push(pending.last()).drop_last() =~= split.0);
            let new = ActiveExposure {
                pending: pending.last(),
                entry_timestamp_ns: timestamp_ns,
                entry_price: quote.bar.open,
            };
            assert(split.1.push(new).drop_last() =~= split.1);
        }
    }
}

pub proof fn lemma_after_counts(
    book: Book,
    moment: Moment,
    timestamp_ns: u64,
    batch: Seq<Quote>,
    id: Seq<char>,
)
    ensures
        book.after(moment, timestamp_ns, batch) matches Ok(next) ==> standing(next, id) == standing(
            book,
            id,
        ) && next.ids == book.ids,
    decreases batch.len(),
{
    if batch.len() > 0 {
        lemma_after_counts(book, moment, timestamp_ns, batch.drop_last(), id);
        if let Ok(middle) = book.after(moment, timestamp_ns, batch.drop_last()) {
            lemma_settled_counts(middle.active, moment, timestamp_ns, batch.last(), id);
            if let Some(split) = replay::settled(
                middle.active,
                moment,
                timestamp_ns,
                batch.last(),
            ) {
                lemma_completed_adds(middle.trades, split.1, id);
                lemma_entered_counts(middle.pending, timestamp_ns, batch.last(), id);
                if let Ok(entry) = replay::entered(middle.pending, timestamp_ns, batch.last()) {
                    lemma_running_adds(split.0, entry.1, id);
                }
            }
        }
    }
}

proof fn lemma_orders_counts(
    book: Book,
    instruments: Set<Seq<char>>,
    timestamp_ns: u64,
    orders: Seq<ExposureOrder>,
    id: Seq<char>,
)
    requires
        standing(book, id) == if book.ids.contains(id) {
            1int
        } else {
            0
        },
    ensures
        book.with_orders(instruments, timestamp_ns, orders) matches Ok(next) ==> standing(next, id)
            == if next.ids.contains(id) {
            1int
        } else {
            0
        },
    decreases orders.len(),
{
    if orders.len() > 0 {
        lemma_orders_counts(book, instruments, timestamp_ns, orders.drop_last(), id);
        if let Ok(middle) = book.with_orders(instruments, timestamp_ns, orders.drop_last()) {
            let new = PendingExposure {
                order: orders.last(),
                signal_timestamp_ns: timestamp_ns,
            };
            assert(middle.pending.push(new).drop_last() =~= middle.pending);
        }
    }
}

/// No exposure is lost and none is counted twice: each identifier that was ever
/// accepted stands in the book exactly once, as a waiting order, an entered
/// exposure or a trade.
pub proof fn law_each_exposure_stands_once(
    instruments: Set<Seq<char>>,
    times: Seq<u64>,
    batches: Seq<Seq<Quote>>,
    answers: Seq<Result<Seq<ExposureOrder>, Seq<char>>>,
    count: int,
    id: Seq<char>,
)
    ensures
        replay::replayed(instruments, times, batches, answers, count) matches Ok(book) ==> standing(
            book,
            id,
        ) == if book.ids.contains(id) {
            1int
        } else {
            0
        },
    decreases count,
{
    if count > 0 {
        law_each_exposure_stands_once(instruments, times, batches, answers, count - 1, id);
        if let Ok(book) = replay::replayed(instruments, times, batches, answers, count - 1) {
            let now = times[count - 1];
            let batch = batches[count - 1];
            lemma_after_counts(book, Moment::Open, now, batch, id);
            if let Ok(opened) = book.after(Moment::Open, now, batch) {
                lemma_after_counts(opened, Moment::Stop, now, batch, id);
                if let Ok(stopped) = opened.after(Moment::Stop, now, batch) {
                    if let Ok(orders) = answers[count - 1] {
                        let queue = crate::arrange::arranged(orders);
                        lemma_orders_counts(stopped, instruments, now, queue, id);
                        if let Ok(ordered) = stopped.with_orders(instruments, now, queue) {
                            lemma_after_counts(ordered, Moment::Close, now, batch, id);
                        }
                    }
                }
            }
        }
    }
}

proof fn lemma_after_extends(book: Book, moment: Moment, timestamp_ns: u64, batch: Seq<Quote>)
    ensures
        book.after(moment, timestamp_ns, batch) matches Ok(next) ==> book.trades.is_prefix_of(
            next.trades,
        ),
    decreases batch.len(),
{
    if batch.len() > 0 {
        lemma_after_extends(book, moment, timestamp_ns, batch.drop_last());
    }
}

pub proof fn lemma_orders_keep_trades(
    book: Book,
    instruments: Set<Seq<char>>,
    timestamp_ns: u64,
    orders: Seq<ExposureOrder>,
)
    ensures
        book.with_orders(instruments, timestamp_ns, orders) matches Ok(next) ==> next.trades
            == book.trades,
    decreases orders.len(),
{
    if orders.len() > 0 {
        lemma_orders_keep_trades(book, instruments, timestamp_ns, orders.drop_last());
    }
}

/// A trade that was booked never changes: later times only add trades.
pub proof fn law_trades_are_kept(
    instruments: Set<Seq<char>>,
    times: Seq<u64>,
    batches: Seq<Seq<Quote>>,
    answers: Seq<Result<Seq<ExposureOrder>, Seq<char>>>,
    earlier: int,
    later: int,
)
    requires
        0 <= earlier <= later,
    ensures
        replay::replayed(instruments, times, batches, answers, later) matches Ok(last) ==> {
            &&& replay::replayed(instruments, times, batches, answers, earlier) matches Ok(first)
                && first.trades.is_prefix_of(last.trades)
        },
    decreases later,
{
    if earlier < later {
        law_trades_are_kept(instruments, times, batches, answers, earlier, later - 1);
        if let Ok(book) = replay::replayed(instruments, times, batches, answers, later - 1) {
            let now = times[later - 1];
            let batch = batches[later - 1];
            lemma_after_extends(book, Moment::Open, now, batch);
            if let Ok(opened) = book.after(Moment::Open, now, batch) {
                lemma_after_extends(opened, Moment::Stop, now, batch);
                if let Ok(stopped) = opened.after(Moment::Stop, now, batch) {
                    if let Ok(orders) = answers[later - 1] {
                        let queue = crate::arrange::arranged(orders);
                        lemma_orders_keep_trades(stopped, instruments, now, queue);
                        if let Ok(ordered) = stopped.with_orders(instruments, now, queue) {
                            lemma_after_extends(ordered, Moment::Close, now, batch);
                        }
                    }
                }
            }
        }
    }
}

/// An entered exposure was signalled before its entry and ends after it.
pub open spec fn entered_in_time(active: ActiveExposure, now: u64) -> bool {
    &&& active.pending.signal_timestamp_ns < active.entry_timestamp_ns <= now
    &&& active.entry_timestamp_ns < active.pending.order.exit.schedule().0
}

/// A trade was signalled before its entry, and completed no earlier than
/// entered; only a stop can complete it on the bar of its entry.
pub open spec fn traded_in_time(trade: ComponentTrade, now: u64) -> bool {
    &&& trade.signal_timestamp_ns < trade.entry_timestamp_ns <= trade.exit_timestamp_ns <= now
    &&& trade.exit_reason != ExitReason::Stop ==> trade.entry_timestamp_ns
        < trade.exit_timestamp_ns
}

pub open spec fn in_time(book: Book, signals_before: int, now: u64) -> bool {
    &&& forall|i: int|
        0 <= i < book.pending.len() ==> (#[trigger] book.pending[i]).signal_timestamp_ns
            < signals_before
    &&& forall|i: int| 0 <= i < book.active.len() ==> entered_in_time(#[trigger] book.active[i], now)
    &&& forall|i: int| 0 <= i < book.trades.len() ==> traded_in_time(#[trigger] book.trades[i], now)
}

proof fn lemma_settled_in_time(
    active: Seq<ActiveExposure>,
    moment: Moment,
    now: u64,
    quote: Quote,
)
    requires
        forall|i: int| 0 <= i < active.len() ==> entered_in_time(#[trigger] active[i], now),
    ensures
        replay::settled(active, moment, now, quote) matches Some(split) ==> {
            &&& forall|i: int|
                0 <= i < split.0.len() ==> entered_in_time(#[trigger] split.0[i], now)
            &&& forall|i: int|
                0 <= i < split.1.len() ==> traded_in_time(#[trigger] split.1[i], now)
        },
    decreases active.len(),
{
    if active.len() > 0 {
        assert forall|i: int| 0 <= i < active.drop_last().len() implies entered_in_time(
            #[trigger] active.drop_last()[i],
            now,
        ) by {
            assert(active.drop_last()[i] == active[i]);
        }
        lemma_settled_in_time(active.drop_last(), moment, now, quote);
        assert(entered_in_time(active[active.len() - 1], now));
    }
}

proof fn lemma_entered_in_time(pending: Seq<PendingExposure>, now: u64, quote: Quote)
    requires
        forall|i: int|
            0 <= i < pending.len() ==> (#[trigger] pending[i]).signal_timestamp_ns < now,
    ensures
        replay::entered(pending, now, quote) matches Ok(split) ==> {
            &&& forall|i: int|
                0 <= i < split.0.len() ==> (#[trigger] split.0[i]).signal_timestamp_ns < now
            &&& forall|i: int|
                0 <= i < split.1.len() ==> entered_in_time(#[trigger] split.1[i], now)
        },
    decreases pending.len(),
{
    if pending.len() > 0 {
        assert forall|i: int| 0 <= i < pending.drop_last().len() implies (
        #[trigger] pending.drop_last()[i]).signal_timestamp_ns < now by {
            assert(pending.drop_last()[i] == pending[i]);
        }
        lemma_entered_in_time(pending.drop_last(), now, quote);
        assert(pending[pending.len() - 1].signal_timestamp_ns < now);
    }
}

proof fn lemma_after_in_time(
    book: Book,
    moment: Moment,
    signals_before: int,
    now: u64,
    batch: Seq<Quote>,
)
    requires
        in_time(book, signals_before, now),
        moment == Moment::Open ==> signals_before == now,
    ensures
        book.after(moment, now, batch) matches Ok(next) ==> in_time(next, signals_before, now),
    decreases batch.len(),
{
    if batch.len() > 0 {
        lemma_after_in_time(book, moment, signals_before, now, batch.drop_last());
        if let Ok(middle) = book.after(moment, now, batch.drop_last()) {
            lemma_settled_in_time(middle.active, moment, now, batch.last());
            if let Some(split) = replay::settled(middle.active, moment, now, batch.last()) {
                let booked = middle.trades + split.1;
                assert forall|i: int| 0 <= i < booked.len() implies traded_in_time(
                    #[trigger] booked[i],
                    now,
                ) by {
                    if i >= middle.trades.len() {
                        assert(booked[i] == split.1[i - middle.trades.len()]);
                    } else {
                        assert(booked[i] == middle.trades[i]);
                    }
                }
                if moment == Moment::Open {
                    lemma_entered_in_time(middle.pending, now, batch.last());
                    if let Ok(entry) = replay::entered(middle.pending, now, batch.last()) {
                        let all = split.0 + entry.1;
                        assert forall|i: int| 0 <= i < all.len() implies entered_in_time(
                            #[trigger] all[i],
                            now,
                        ) by {
                            if i >= split.0.len() {
                                assert(all[i] == entry.1[i - split.0.len()]);
                            } else {
                                assert(all[i] == split.0[i]);
                            }
                        }
                    }
                }
            }
        }
    }
}

proof fn lemma_orders_in_time(
    book: Book,
    instruments: Set<Seq<char>>,
    now: u64,
    orders: Seq<ExposureOrder>,
)
    requires
        in_time(book, now + 1, now),
    ensures
        book.with_orders(instruments, now, orders) matches Ok(next) ==> in_time(
            next,
            now + 1,
            now,
        ),
    decreases orders.len(),
{
    if orders.len() > 0 {
        lemma_orders_in_time(book, instruments, now, orders.drop_last());
    }
}

proof fn lemma_step_in_time(
    book: Book,
    instruments: Set<Seq<char>>,
    now: u64,
    batch: Seq<Quote>,
    given: Result<Seq<ExposureOrder>, Seq<char>>,
)
    requires
        in_time(book, now as int, now),
    ensures
        replay::stepped(book, instruments, now, batch, given) matches Ok(next) ==> in_time(
            next,
            now + 1,
            now,
        ),
{
    lemma_after_in_time(book, Moment::Open, now as int, now, batch);
    if let Ok(opened) = book.after(Moment::Open, now, batch) {
        lemma_after_in_time(opened, Moment::Stop, now as int, now, batch);
        if let Ok(stopped) = opened.after(Moment::Stop, now, batch) {
            if let Ok(orders) = given {
                let queue = crate::arrange::arranged(orders);
                assert(in_time(stopped, now + 1, now));
                lemma_orders_in_time(stopped, instruments, now, queue);
                if let Ok(ordered) = stopped.with_orders(instruments, now, queue) {
                    lemma_after_in_time(ordered, Moment::Close, now + 1, now, batch);
                }
            }
        }
    }
}

/// Time moves on.
proof fn lemma_later_in_time(book: Book, before: u64, now: u64)
    requires
        in_time(book, before + 1, before),
        before < now,
    ensures
        in_time(book, now as int, now),
{
    assert forall|i: int| 0 <= i < book.active.len() implies entered_in_time(
        #[trigger] book.active[i],
        now,
    ) by {
        assert(entered_in_time(book.active[i], before));
    }
    assert forall|i: int| 0 <= i < book.trades.len() implies traded_in_time(
        #[trigger] book.trades[i],
        now,
    ) by {
        assert(traded_in_time(book.trades[i], before));
    }
}

/// Every exposure is entered at a time later than its signal. A scheduled exit
/// comes later than the entry, and no exit comes earlier.
pub proof fn law_entries_follow_signals(
    instruments: Set<Seq<char>>,
    times: Seq<u64>,
    batches: Seq<Seq<Quote>>,
    answers: Seq<Result<Seq<ExposureOrder>, Seq<char>>>,
    count: int,
)
    requires
        0 < count <= times.len(),
        forall|i: int, j: int| 0 <= i < j < times.len() ==> times[i] < times[j],
    ensures
        replay::replayed(instruments, times, batches, answers, count) matches Ok(book) ==> in_time(
            book,
            times[count - 1] + 1,
            times[count - 1],
        ),
    decreases count,
{
    let now = times[count - 1];
    if let Ok(book) = replay::replayed(instruments, times, batches, answers, count - 1) {
        if count == 1 {
            assert(book == Book::empty());
        } else {
            law_entries_follow_signals(instruments, times, batches, answers, count - 1);
            lemma_later_in_time(book, times[count - 2], now);
        }
        lemma_step_in_time(book, instruments, now, batches[count - 1], answers[count - 1]);
    }
}

/// What trades add up to.
pub open spec fn weighted_sum(trades: Seq<ComponentTrade>) -> int
    decreases trades.len(),
{
    if trades.len() == 0 {
        0
    } else {
        weighted_sum(trades.drop_last()) + trades.last().weighted_return_units
    }
}

/// What the columns of days add up to.
pub open spec fn calendar_sum(
    days: Seq<TradingDay>,
    keys: Seq<Seq<String>>,
    trades: Seq<ComponentTrade>,
) -> int
    decreases days.len(),
{
    if days.len() == 0 {
        0
    } else {
        calendar_sum(days.drop_last(), keys, trades) + daily::column_sum(
            daily::columns(keys[days.len() - 1], trades, days.last().number()),
        )
    }
}

/// What components add up to on a day.
spec fn day_sum(keys: Seq<String>, trades: Seq<ComponentTrade>, number: int) -> int
    decreases keys.len(),
{
    if keys.len() == 0 {
        0
    } else {
        day_sum(keys.drop_last(), trades, number) + daily::units_on(
            trades,
            number,
            keys.last()@,
        )
    }
}

/// What the trades of a day add up to.
spec fn day_total(trades: Seq<ComponentTrade>, number: int) -> int
    decreases trades.len(),
{
    if trades.len() == 0 {
        0
    } else {
        day_total(trades.drop_last(), number) + if daily::local_day(
            trades.last().exit_timestamp_ns,
        ) == Some(number) {
            trades.last().weighted_return_units as int
        } else {
            0
        }
    }
}

/// What the trades of days add up to.
spec fn days_total(days: Seq<TradingDay>, trades: Seq<ComponentTrade>) -> int
    decreases days.len(),
{
    if days.len() == 0 {
        0
    } else {
        days_total(days.drop_last(), trades) + day_total(trades, days.last().number())
    }
}

/// Where trades can be booked, no column is out of range.
proof fn lemma_columns_in_range(
    trades: Seq<ComponentTrade>,
    days: Seq<TradingDay>,
    number: int,
    component: Seq<char>,
)
    requires
        daily::unbookable(trades, days) is None,
    ensures
        i64::MIN <= daily::units_on(trades, number, component) <= i64::MAX,
    decreases trades.len(),
{
    if trades.len() > 0 {
        lemma_columns_in_range(trades.drop_last(), days, number, component);
    }
}

proof fn lemma_column_sum(
    keys: Seq<String>,
    trades: Seq<ComponentTrade>,
    days: Seq<TradingDay>,
    number: int,
)
    requires
        daily::unbookable(trades, days) is None,
    ensures
        daily::column_sum(daily::columns(keys, trades, number)) == day_sum(keys, trades, number),
    decreases keys.len(),
{
    if keys.len() > 0 {
        lemma_column_sum(keys.drop_last(), trades, days, number);
        lemma_columns_in_range(trades, days, number, keys.last()@);
        assert(daily::columns(keys, trades, number).drop_last() =~= daily::columns(
            keys.drop_last(),
            trades,
            number,
        ));
    }
}

/// One trade more changes one column of one day.
proof fn lemma_day_sum_step(keys: Seq<String>, trades: Seq<ComponentTrade>, number: int)
    requires
        trades.len() > 0,
        ordered::increasing(keys),
    ensures
        day_sum(keys, trades, number) == day_sum(keys, trades.drop_last(), number)
            + if daily::local_day(trades.last().exit_timestamp_ns) == Some(number)
            && ordered::occurs(keys, trades.last().component@) {
            trades.last().weighted_return_units as int
        } else {
            0
        },
    decreases keys.len(),
{
    let component = trades.last().component@;
    if keys.len() > 0 {
        let rest = keys.drop_last();
        assert(ordered::increasing(rest)) by {
            assert forall|i: int, j: int| 0 <= i < j < rest.len() implies text::before(
                #[trigger] rest[i]@,
                #[trigger] rest[j]@,
            ) by {
                assert(rest[i] == keys[i] && rest[j] == keys[j]);
            }
        }
        lemma_day_sum_step(rest, trades, number);
        if keys.last()@ == component {
            assert(keys[keys.len() - 1]@ == component);
            if ordered::occurs(rest, component) {
                let i = ordered::place(rest, component);
                assert(keys[i]@ == component);
                text::lemma_before_irreflexive(component);
                assert(text::before(keys[i]@, keys[keys.len() - 1]@));
            }
        } else {
            if ordered::occurs(keys, component) {
                let i = ordered::place(keys, component);
                assert(rest[i]@ == component);
            }
            if ordered::occurs(rest, component) {
                let i = ordered::place(rest, component);
                assert(keys[i]@ == component);
            }
        }
    }
}

/// The columns of a day add up to its trades, where every component that trades
/// on it has one.
proof fn lemma_day_sum(keys: Seq<String>, trades: Seq<ComponentTrade>, number: int)
    requires
        ordered::increasing(keys),
        forall|c: Seq<char>| #[trigger]
            daily::traded_on(trades, number, c) ==> ordered::occurs(keys, c),
    ensures
        day_sum(keys, trades, number) == day_total(trades, number),
    decreases trades.len(),
{
    if trades.len() == 0 {
        assert(trades =~= Seq::<ComponentTrade>::empty());
        lemma_day_sum_empty(keys, number);
    } else {
        let fewer = trades.drop_last();
        assert forall|c: Seq<char>| #[trigger] daily::traded_on(
            fewer,
            number,
            c,
        ) implies ordered::occurs(keys, c) by {
            let i = choose|i: int|
                0 <= i < fewer.len() && (#[trigger] fewer[i]).component@ == c && daily::local_day(
                    fewer[i].exit_timestamp_ns,
                ) == Some(number);
            assert(trades[i] == fewer[i]);
            assert(daily::traded_on(trades, number, c));
        }
        lemma_day_sum(keys, fewer, number);
        lemma_day_sum_step(keys, trades, number);
        if daily::local_day(trades.last().exit_timestamp_ns) == Some(number) {
            assert(trades[trades.len() - 1] == trades.last());
            assert(daily::traded_on(trades, number, trades.last().component@));
        }
    }
}

proof fn lemma_day_sum_empty(keys: Seq<String>, number: int)
    ensures
        day_sum(keys, Seq::empty(), number) == 0,
    decreases keys.len(),
{
    if keys.len() > 0 {
        lemma_day_sum_empty(keys.drop_last(), number);
    }
}

/// One trade more is counted on one day.
proof fn lemma_days_total_step(days: Seq<TradingDay>, trades: Seq<ComponentTrade>, number: int)
    requires
        trades.len() > 0,
        daily::increasing_days(days),
        daily::local_day(trades.last().exit_timestamp_ns) == Some(number),
    ensures
        days_total(days, trades) == days_total(days, trades.drop_last())
            + if daily::on_calendar(days, number) {
            trades.last().weighted_return_units as int
        } else {
            0
        },
    decreases days.len(),
{
    if days.len() > 0 {
        let rest = days.drop_last();
        assert(daily::increasing_days(rest)) by {
            assert forall|i: int, j: int| 0 <= i < j < rest.len() implies (
            #[trigger] rest[i]).number() < (#[trigger] rest[j]).number() by {
                assert(rest[i] == days[i] && rest[j] == days[j]);
            }
        }
        lemma_days_total_step(rest, trades, number);
        let top = days[days.len() - 1];
        if top.number() == number {
            assert(daily::on_calendar(days, number));
            if daily::on_calendar(rest, number) {
                let d = choose|d: int|
                    0 <= d < rest.len() && (#[trigger] rest[d]).number() == number;
                assert(days[d].number() < top.number());
            }
        } else {
            if daily::on_calendar(days, number) {
                let d = choose|d: int|
                    0 <= d < days.len() && (#[trigger] days[d]).number() == number;
                assert(rest[d].number() == number);
            }
            if daily::on_calendar(rest, number) {
                let d = choose|d: int|
                    0 <= d < rest.len() && (#[trigger] rest[d]).number() == number;
                assert(days[d].number() == number);
            }
        }
    }
}

proof fn lemma_days_total_empty(days: Seq<TradingDay>)
    ensures
        days_total(days, Seq::empty()) == 0,
    decreases days.len(),
{
    if days.len() > 0 {
        lemma_days_total_empty(days.drop_last());
    }
}

proof fn lemma_days_total(days: Seq<TradingDay>, trades: Seq<ComponentTrade>)
    requires
        daily::increasing_days(days),
        daily::unbookable(trades, days) is None,
    ensures
        days_total(days, trades) == weighted_sum(trades),
    decreases trades.len(),
{
    if trades.len() == 0 {
        assert(trades =~= Seq::<ComponentTrade>::empty());
        lemma_days_total_empty(days);
    } else {
        lemma_days_total(days, trades.drop_last());
        let number = daily::local_day(trades.last().exit_timestamp_ns)->0;
        lemma_days_total_step(days, trades, number);
    }
}

proof fn lemma_calendar_sum(
    days: Seq<TradingDay>,
    keys: Seq<Seq<String>>,
    components: Seq<String>,
    trades: Seq<ComponentTrade>,
    all: Seq<TradingDay>,
    count: int,
)
    requires
        daily::unbookable(trades, all) is None,
        daily::lists_calendar(keys, all, components, trades),
        0 <= count <= all.len(),
        days == all.take(count),
    ensures
        calendar_sum(days, keys, trades) == days_total(days, trades),
    decreases count,
{
    if count > 0 {
        assert(days.drop_last() =~= all.take(count - 1));
        lemma_calendar_sum(days.drop_last(), keys, components, trades, all, count - 1);
        let number = days.last().number();
        assert(all[count - 1] == days.last());
        let row = keys[count - 1];
        assert(daily::lists_columns(row, components, trades, number));
        lemma_column_sum(row, trades, all, number);
        lemma_day_sum(row, trades, number);
    }
}

/// The daily portfolio returns of a calendar add up to the weighted returns of
/// the trades, to the last unit.
pub proof fn law_daily_returns_conserve(
    days: Seq<TradingDay>,
    keys: Seq<Seq<String>>,
    components: Seq<String>,
    trades: Seq<ComponentTrade>,
)
    requires
        daily::increasing_days(days),
        daily::unbookable(trades, days) is None,
        daily::lists_calendar(keys, days, components, trades),
    ensures
        calendar_sum(days, keys, trades) == weighted_sum(trades),
{
    assert(days.take(days.len() as int) =~= days);
    lemma_calendar_sum(days, keys, components, trades, days, days.len() as int);
    lemma_days_total(days, trades);
}

/// A registered component that never trades keeps a column of zeros.
pub proof fn law_untraded_columns_are_zero(
    trades: Seq<ComponentTrade>,
    number: int,
    component: Seq<char>,
)
    requires
        !daily::traded(trades, component),
    ensures
        daily::units_on(trades, number, component) == 0,
    decreases trades.len(),
{
    if trades.len() > 0 {
        let fewer = trades.drop_last();
        if daily::traded(fewer, component) {
            let i = choose|i: int|
                0 <= i < fewer.len() && (#[trigger] fewer[i]).component@ == component;
            assert(trades[i].component@ == component);
        }
        assert(trades[trades.len() - 1].component@ != component);
        law_untraded_columns_are_zero(fewer, number, component);
    }
}

} // verus!
