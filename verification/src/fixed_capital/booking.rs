//! Which orders are admitted, what is missed, and on which day a trade is booked.

use super::conduct;
use super::conduct::Record;
use super::daily;
use super::daily::DailyReturn;
use super::exits::{planned_end, planned_fill};
use super::growth;
use super::laws;
use super::performance;
use super::replay;
use super::replay::{ActiveExposure, Book};
use super::run;
use super::{
    ComponentTrade, ExitPlan, ExposureOrder, FixedCapitalConfig, FixedCapitalInstrument,
    FixedCapitalStrategy, InstrumentHistory, Problem, ScheduledFill, TradingDay,
};
use crate::arrange;
use crate::ordered;
use crate::rounding::one;
use crate::text;
use vstd::prelude::*;

verus! {

/// Whether an order can be carried out: it has names, its identifier is new, its
/// instrument is known, its scale and weight are positive, its cost is a proper
/// fraction, its stop is a price, and it ends after now.
pub open spec fn is_admissible(
    instruments: Set<Seq<char>>,
    ids: Set<Seq<char>>,
    now: u64,
    order: ExposureOrder,
) -> bool {
    &&& order.id@.len() > 0 && order.component@.len() > 0 && order.instrument@.len() > 0
    &&& !ids.contains(order.id@)
    &&& instruments.contains(order.instrument@)
    &&& order.component_scale.finite() && order.component_scale.value() > 0
    &&& order.instrument_weight.finite() && order.instrument_weight.value() > 0
    &&& order.cost_fraction.finite() && 0 <= order.cost_fraction.value() < one()
    &&& now < planned_end(order.exit)
    &&& order.exit matches ExitPlan::StopOrAt { stop_price, .. } ==> stop_price.finite()
        && stop_price.value() > 0
}

/// An order waits exactly where it can be carried out, with the time of its signal;
/// nothing else of the book changes but that its identifier is used.
pub proof fn law_admissible_orders_wait(
    book: Book,
    instruments: Set<Seq<char>>,
    now: u64,
    order: ExposureOrder,
)
    ensures
        book.with_order(instruments, now, order) is Ok <==> is_admissible(
            instruments,
            book.ids,
            now,
            order,
        ),
        book.with_order(instruments, now, order) matches Ok(next) ==> {
            &&& next.pending.len() == book.pending.len() + 1
            &&& next.pending.last().order == order
            &&& next.pending.last().signal_timestamp_ns == now
            &&& next.pending.drop_last() == book.pending
            &&& next.active == book.active
            &&& next.trades == book.trades
            &&& forall|id: Seq<char>|
                next.ids.contains(id) <==> book.ids.contains(id) || id == order.id@
        },
        book.with_order(instruments, now, order) matches Err(problem) ==> {
            &&& problem matches Problem::DuplicateExposure(id) ==> id == order.id@
                && book.ids.contains(order.id@)
            &&& problem matches Problem::UnknownInstrument(name) ==> name == order.instrument@
                && !instruments.contains(order.instrument@)
            &&& problem matches Problem::ExitNotAfterSignal(id) ==> id == order.id@ && planned_end(
                order.exit,
            ) <= now
            &&& problem matches Problem::InvalidStop(id) ==> id == order.id@ && order.exit
                is StopOrAt
        },
{
    crate::rounding::law_integers_are_exact(1);
    assert(1 * one() == one());
    if let Ok(next) = book.with_order(instruments, now, order) {
        assert(next.pending.drop_last() =~= book.pending);
    }
}

/// A time is passed exactly where no exposure was to end before it; else the one that
/// is named was to end before it, no other of its kind of fill ends earlier, and
/// opens are named before closes.
pub proof fn law_missed_ends_are_named(active: Seq<ActiveExposure>, before_ns: int)
    ensures
        match replay::missed(active, before_ns) {
            None => forall|i: int|
                0 <= i < active.len() ==> planned_end(
                    (#[trigger] active[i]).pending.order.exit,
                ) >= before_ns,
            Some(problem) => problem matches Problem::MissingScheduledBar {
                instrument,
                timestamp_ns,
            } && timestamp_ns < before_ns && exists|i: int| #[trigger]
                is_first_missed(active, i, before_ns) && active[i].pending.order.instrument@
                    == instrument && planned_end(active[i].pending.order.exit) == timestamp_ns,
        },
{
    lemma_earliest(active, ScheduledFill::Open, before_ns);
    lemma_earliest(active, ScheduledFill::Close, before_ns);
    if let Some(found) = replay::earliest(active, ScheduledFill::Open, before_ns) {
        let i = choose|i: int| #[trigger]
            is_earliest(active, ScheduledFill::Open, before_ns, i) && active[i].pending.order.instrument@
                == found.1 && planned_end(active[i].pending.order.exit) == found.0;
        assert(is_first_missed(active, i, before_ns));
    } else if let Some(found) = replay::earliest(active, ScheduledFill::Close, before_ns) {
        let i = choose|i: int| #[trigger]
            is_earliest(active, ScheduledFill::Close, before_ns, i) && active[i].pending.order.instrument@
                == found.1 && planned_end(active[i].pending.order.exit) == found.0;
        assert(is_first_missed(active, i, before_ns));
    }
}

/// Whether an exposure is the first that was to end before a time, among those with
/// a kind of fill.
pub open spec fn is_earliest(
    active: Seq<ActiveExposure>,
    fill: ScheduledFill,
    before_ns: int,
    i: int,
) -> bool {
    &&& 0 <= i < active.len()
    &&& planned_fill(active[i].pending.order.exit) == fill
    &&& planned_end(active[i].pending.order.exit) < before_ns
    &&& forall|j: int|
        0 <= j < active.len() && planned_fill((#[trigger] active[j]).pending.order.exit) == fill
            ==> planned_end(active[i].pending.order.exit) <= planned_end(
            active[j].pending.order.exit,
        )
}

/// Whether an exposure is the first that is missed: opens come before closes.
pub open spec fn is_first_missed(active: Seq<ActiveExposure>, i: int, before_ns: int) -> bool {
    ||| is_earliest(active, ScheduledFill::Open, before_ns, i)
    ||| is_earliest(active, ScheduledFill::Close, before_ns, i) && forall|j: int|
        0 <= j < active.len() && planned_fill((#[trigger] active[j]).pending.order.exit)
            == ScheduledFill::Open ==> planned_end(active[j].pending.order.exit) >= before_ns
}

proof fn lemma_earliest(active: Seq<ActiveExposure>, fill: ScheduledFill, before_ns: int)
    ensures
        match replay::earliest(active, fill, before_ns) {
            None => forall|i: int|
                0 <= i < active.len() && planned_fill((#[trigger] active[i]).pending.order.exit)
                    == fill ==> planned_end(active[i].pending.order.exit) >= before_ns,
            Some(found) => exists|i: int| #[trigger]
                is_earliest(active, fill, before_ns, i) && active[i].pending.order.instrument@
                    == found.1 && planned_end(active[i].pending.order.exit) == found.0,
        },
    decreases active.len(),
{
    if active.len() > 0 {
        let fewer = active.drop_last();
        let n = active.len() - 1;
        lemma_earliest(fewer, fill, before_ns);
        assert forall|j: int| 0 <= j < n implies active[j] == #[trigger] fewer[j] by {}
        if let Some(found) = replay::earliest(active, fill, before_ns) {
            match replay::earliest(fewer, fill, before_ns) {
                None => {
                    assert forall|j: int|
                        0 <= j < active.len() && planned_fill(
                            (#[trigger] active[j]).pending.order.exit,
                        ) == fill implies planned_end(active[n].pending.order.exit)
                        <= planned_end(active[j].pending.order.exit) by {
                        if j < n {
                            assert(fewer[j] == active[j]);
                        }
                    }
                    assert(is_earliest(active, fill, before_ns, n));
                },
                Some(best) => {
                    let i = choose|i: int| #[trigger]
                        is_earliest(fewer, fill, before_ns, i)
                            && fewer[i].pending.order.instrument@ == best.1 && planned_end(
                            fewer[i].pending.order.exit,
                        ) == best.0;
                    let at = if found == best && planned_end(
                        active[i].pending.order.exit,
                    ) == found.0 && active[i].pending.order.instrument@ == found.1 {
                        i
                    } else {
                        n
                    };
                    assert forall|j: int|
                        0 <= j < active.len() && planned_fill(
                            (#[trigger] active[j]).pending.order.exit,
                        ) == fill implies planned_end(active[at].pending.order.exit)
                        <= planned_end(active[j].pending.order.exit) by {
                        if j < n {
                            assert(fewer[j] == active[j]);
                        }
                    }
                    assert(is_earliest(active, fill, before_ns, at));
                },
            }
        } else {
            assert forall|i: int|
                0 <= i < active.len() && planned_fill((#[trigger] active[i]).pending.order.exit)
                    == fill implies planned_end(active[i].pending.order.exit) >= before_ns by {
                if i < n {
                    assert(fewer[i] == active[i]);
                }
            }
        }
    }
}

/// A trade is booked on the day of Shanghai on which it exits, under its component:
/// one more trade adds its weighted return there, and changes no other sum.
pub proof fn law_trades_are_booked_where_they_exit(
    trades: Seq<ComponentTrade>,
    trade: ComponentTrade,
    number: int,
    component: Seq<char>,
)
    requires
        trade.exit_timestamp_ns + 28_800_000_000_000 <= u64::MAX,
    ensures
        ({
            let local = trade.exit_timestamp_ns + 28_800_000_000_000;
            let here = number * 86_400_000_000_000 <= local < (number + 1) * 86_400_000_000_000
                && trade.component@ == component;
            daily::units_on(trades.push(trade), number, component) == daily::units_on(
                trades,
                number,
                component,
            ) + if here {
                trade.weighted_return_units as int
            } else {
                0
            }
        }),
        daily::units_on(Seq::empty(), number, component) == 0,
{
    assert(trades.push(trade).drop_last() =~= trades);
    let local = trade.exit_timestamp_ns + 28_800_000_000_000;
    assert(local / 86_400_000_000_000 == number <==> number * 86_400_000_000_000 <= local < (number
        + 1) * 86_400_000_000_000);
}

/// Trades are booked exactly where each exits on a day of the calendar and no running
/// sum leaves the range.
pub proof fn law_exits_lie_on_the_calendar(
    trades: Seq<ComponentTrade>,
    days: Seq<TradingDay>,
    i: int,
)
    requires
        daily::unbookable(trades, days) is None,
        0 <= i < trades.len(),
    ensures
        exists|d: int|
            0 <= d < days.len() && (#[trigger] days[d]).number() * 86_400_000_000_000
                <= trades[i].exit_timestamp_ns + 28_800_000_000_000 < (days[d].number() + 1)
                * 86_400_000_000_000,
    decreases trades.len(),
{
    if i < trades.len() - 1 {
        law_exits_lie_on_the_calendar(trades.drop_last(), days, i);
    } else {
        let number = daily::local_day(trades[i].exit_timestamp_ns)->Some_0;
        let d = choose|d: int| 0 <= d < days.len() && (#[trigger] days[d]).number() == number;
        let local = trades[i].exit_timestamp_ns + 28_800_000_000_000;
        assert(number * 86_400_000_000_000 <= local < (number + 1) * 86_400_000_000_000);
        assert(days[d].number() == number);
    }
}

/// Whether a trade exits on a day of a calendar.
pub open spec fn exits_on(days: Seq<TradingDay>, trade: ComponentTrade) -> bool {
    trade.exit_timestamp_ns + 28_800_000_000_000 <= u64::MAX && exists|d: int|
        0 <= d < days.len() && (#[trigger] days[d]).number() * 86_400_000_000_000
            <= trade.exit_timestamp_ns + 28_800_000_000_000 < (days[d].number() + 1)
            * 86_400_000_000_000
}

/// Trades that each exit on a day of the calendar are booked, where no running sum leaves
/// the range.
pub proof fn law_trades_on_the_calendar_are_booked(
    trades: Seq<ComponentTrade>,
    days: Seq<TradingDay>,
)
    requires
        forall|i: int| 0 <= i < trades.len() ==> exits_on(days, #[trigger] trades[i]),
        forall|count: int, number: int, component: Seq<char>|
            0 <= count <= trades.len() ==> i64::MIN <= #[trigger] daily::units_on(
                trades.take(count),
                number,
                component,
            ) <= i64::MAX,
    ensures
        daily::unbookable(trades, days) is None,
    decreases trades.len(),
{
    if trades.len() > 0 {
        let fewer = trades.drop_last();
        assert forall|i: int| 0 <= i < fewer.len() implies exits_on(days, #[trigger] fewer[i]) by {
            assert(fewer[i] == trades[i]);
        }
        assert forall|count: int, number: int, component: Seq<char>|
            0 <= count <= fewer.len() implies i64::MIN <= #[trigger] daily::units_on(
            fewer.take(count),
            number,
            component,
        ) <= i64::MAX by {
            assert(fewer.take(count) =~= trades.take(count));
        }
        law_trades_on_the_calendar_are_booked(fewer, days);
        let last = trades[trades.len() - 1];
        let local = last.exit_timestamp_ns + 28_800_000_000_000;
        let d = choose|d: int|
            0 <= d < days.len() && (#[trigger] days[d]).number() * 86_400_000_000_000 <= local < (
            days[d].number() + 1) * 86_400_000_000_000;
        assert(local / 86_400_000_000_000 == days[d].number());
        assert(daily::on_calendar(days, days[d].number()));
        assert(trades.take(trades.len() as int) =~= trades);
        assert(i64::MIN <= daily::units_on(
            trades.take(trades.len() as int),
            days[d].number(),
            last.component@,
        ) <= i64::MAX);
    }
}

/// The return of a portfolio on a day is the sum of its columns: changing one changes
/// it by as much.
pub proof fn law_portfolios_sum_their_columns(values: Seq<i64>, at: int, other: i64)
    requires
        0 <= at < values.len(),
    ensures
        daily::column_sum(values.update(at, other)) - daily::column_sum(values) == other
            - values[at],
        daily::column_sum(Seq::empty()) == 0,
    decreases values.len(),
{
    let updated = values.update(at, other);
    if at < values.len() - 1 {
        assert(updated.drop_last() =~= values.drop_last().update(at, other));
        law_portfolios_sum_their_columns(values.drop_last(), at, other);
    } else {
        assert(updated.drop_last() =~= values.drop_last());
    }
}

/// The inputs of a replay pass exactly where there are days, each after the one
/// before, and instruments, each with a name of its own and bars in order of time.
pub proof fn law_inputs_pass_where_they_are_in_order(
    days: Seq<TradingDay>,
    histories: Seq<InstrumentHistory>,
)
    ensures
        run::inputs_problem(days, histories) is None <==> {
            &&& days.len() > 0
            &&& forall|i: int, j: int|
                0 <= i < j < days.len() ==> (#[trigger] days[i]).number() < (
                #[trigger] days[j]).number()
            &&& histories.len() > 0
            &&& are_in_order(histories)
        },
{
    lemma_histories(histories);
}

/// Whether histories have names of their own, and bars in order of time.
pub open spec fn are_in_order(histories: Seq<InstrumentHistory>) -> bool {
    &&& forall|h: int| 0 <= h < histories.len() ==> (#[trigger] histories[h]).instrument@.len() > 0
    &&& forall|g: int, h: int|
        0 <= g < h < histories.len() ==> (#[trigger] histories[g]).instrument@ != (
        #[trigger] histories[h]).instrument@
    &&& forall|h: int, i: int, j: int|
        0 <= h < histories.len() && 0 <= i < j < histories[h].bars@.len() ==> (
        #[trigger] histories[h].bars@[i]).timestamp_ns < (
        #[trigger] histories[h].bars@[j]).timestamp_ns
}

proof fn lemma_histories(histories: Seq<InstrumentHistory>)
    ensures
        run::histories_problem(histories) is None <==> are_in_order(histories),
    decreases histories.len(),
{
    if histories.len() > 0 {
        let fewer = histories.drop_last();
        let n = histories.len() - 1;
        lemma_histories(fewer);
        assert forall|h: int| 0 <= h < n implies histories[h] == #[trigger] fewer[h] by {}
        if run::histories_problem(histories) is None {
            assert(are_in_order(fewer));
            assert forall|g: int, h: int| 0 <= g < h < histories.len() implies (
            #[trigger] histories[g]).instrument@ != (#[trigger] histories[h]).instrument@ by {
                assert(fewer[g] == histories[g]);
                if h < n {
                    assert(fewer[h] == histories[h]);
                }
            }
            assert forall|h: int, i: int, j: int|
                0 <= h < histories.len() && 0 <= i < j < histories[h].bars@.len() implies (
            #[trigger] histories[h].bars@[i]).timestamp_ns < (
            #[trigger] histories[h].bars@[j]).timestamp_ns by {
                if h < n {
                    assert(fewer[h].bars@[i].timestamp_ns < fewer[h].bars@[j].timestamp_ns);
                }
            }
            assert forall|h: int| 0 <= h < histories.len() implies (
            #[trigger] histories[h]).instrument@.len() > 0 by {
                if h < n {
                    assert(fewer[h] == histories[h]);
                }
            }
        }
        if are_in_order(histories) {
            assert(are_in_order(fewer)) by {
                assert forall|h: int, i: int, j: int|
                    0 <= h < fewer.len() && 0 <= i < j < fewer[h].bars@.len() implies (
                #[trigger] fewer[h].bars@[i]).timestamp_ns < (
                #[trigger] fewer[h].bars@[j]).timestamp_ns by {
                    assert(histories[h].bars@[i].timestamp_ns < histories[h].bars@[j].timestamp_ns);
                }
            }
            assert(super::timeline::increasing_bars(histories.last().bars@)) by {
                assert forall|i: int, j: int|
                    0 <= i < j < histories.last().bars@.len() implies (
                #[trigger] histories.last().bars@[i]).timestamp_ns < (
                #[trigger] histories.last().bars@[j]).timestamp_ns by {
                    assert(histories[n].bars@[i].timestamp_ns < histories[n].bars@[j].timestamp_ns);
                }
            }
        }
    }
}

/// The daily portfolio returns of a replay add up to the weighted returns of its trades,
/// and its performance is that of those days.
pub proof fn law_results_add_up<S: FixedCapitalStrategy>(record: Record<S>)
    requires
        record.took_place(),
        daily::increasing_days(record.days),
    ensures
        portfolio_sum(record.result.daily_returns@) == laws::weighted_sum(record.result.trades@),
        record.result.daily_returns@.len() == record.days.len(),
        record.result.performance == growth::of(
            performance::portfolio_returns(record.result.daily_returns@),
        ),
        record.result.data_size_bytes == record.data_size_bytes,
{
    law_rows_add_up_to_the_trades(
        record.result.daily_returns,
        record.days,
        record.result.component_order@,
        record.result.trades@,
    );
}

/// Whether a trade may stand before another: by component, then by instrument, then by
/// entry, then by identifier.
pub open spec fn may_stand_before(a: ComponentTrade, b: ComponentTrade) -> bool {
    ||| text::before(a.component@, b.component@)
    ||| a.component@ == b.component@ && text::before(a.instrument@, b.instrument@)
    ||| a.component@ == b.component@ && a.instrument@ == b.instrument@ && a.entry_timestamp_ns
        < b.entry_timestamp_ns
    ||| a.component@ == b.component@ && a.instrument@ == b.instrument@ && a.entry_timestamp_ns
        == b.entry_timestamp_ns && !text::before(b.id@, a.id@)
}

/// The trades of a result stand by component, instrument, entry and identifier, and what is
/// left by identifier.
pub proof fn law_results_stand_in_order<S: FixedCapitalStrategy>(
    record: Record<S>,
    i: int,
    j: int,
)
    requires
        record.took_place(),
        0 <= i < j,
    ensures
        j < record.result.trades@.len() ==> may_stand_before(
            record.result.trades@[i],
            record.result.trades@[j],
        ),
        j < record.result.censored@.len() ==> !text::before(
            record.result.censored@[j].id@,
            record.result.censored@[i].id@,
        ),
{
    conduct::law_every_order_is_traded_or_left_once(record);
    if j < record.result.trades@.len() {
        let a = record.result.trades@[i];
        let b = record.result.trades@[j];
        assert(!arrange::Ranked::ranks_before(b, a));
        text::lemma_before_total(a.component@, b.component@);
        text::lemma_before_total(a.instrument@, b.instrument@);
    }
    if j < record.result.censored@.len() {
        assert(!arrange::Ranked::ranks_before(
            record.result.censored@[j],
            record.result.censored@[i],
        ));
    }
}

/// The orders of one answer are taken by their identifiers, whatever order they came in.
pub proof fn law_orders_are_taken_by_identifier(orders: Seq<ExposureOrder>, i: int, j: int)
    requires
        0 <= i < j < orders.len(),
    ensures
        arrange::arranged(orders).len() == orders.len(),
        !text::before(arrange::arranged(orders)[j].id@, arrange::arranged(orders)[i].id@),
{
    arrange::law_arranged(orders);
    assert(!arrange::Ranked::ranks_before(
        arrange::arranged(orders)[j],
        arrange::arranged(orders)[i],
    ));
}

/// What days add up to.
pub open spec fn portfolio_sum(rows: Seq<DailyReturn>) -> int
    decreases rows.len(),
{
    if rows.len() == 0 {
        0
    } else {
        portfolio_sum(rows.drop_last()) + rows.last().portfolio_return_units
    }
}

/// The rows of a calendar are its days, in order. A row holds for each component that
/// trades or is asked for what its trades add up to on the day, and the sum of these. All
/// rows together add up to all trades, to the last unit.
pub proof fn law_rows_add_up_to_the_trades(
    rows: Vec<DailyReturn>,
    days: Seq<TradingDay>,
    components: Seq<String>,
    trades: Seq<ComponentTrade>,
)
    requires
        daily::increasing_days(days),
        daily::is_booked(Ok(rows), days, components, trades),
    ensures
        rows@.len() == days.len(),
        portfolio_sum(rows@) == laws::weighted_sum(trades),
        forall|d: int|
            0 <= d < days.len() ==> is_row(#[trigger] rows@[d], days[d], components, trades),
{
    let keys = choose|keys: Seq<Seq<String>>| #[trigger]
        daily::lists_calendar(keys, days, components, trades) && daily::is_summed(
            Ok(rows),
            days,
            keys,
            trades,
        );
    laws::law_daily_returns_conserve(days, keys, components, trades);
    lemma_rows(rows@, days, keys, trades, days.len() as int);
    assert(days.take(days.len() as int) =~= days);
    assert(rows@.take(days.len() as int) =~= rows@);
    assert forall|d: int| 0 <= d < days.len() implies is_row(
        #[trigger] rows@[d],
        days[d],
        components,
        trades,
    ) by {
        let row = rows@[d];
        let number = days[d].number();
        assert(daily::is_daily(row, days[d], keys[d], trades));
        assert(daily::lists_columns(keys[d], components, trades, number));
        let found = row.component_return_units;
        found.lemma_increasing();
        assert forall|c: Seq<char>| #[trigger] found.has(c) implies found.at(c) == daily::units_on(
            trades,
            number,
            c,
        ) as i64 by {
            let k = choose|k: int|
                0 <= k < found.keys().len() && (#[trigger] found.keys()[k])@ == c;
            ordered::lemma_place(found.keys(), k);
            assert(found.values()[k] == daily::columns(keys[d], trades, number)[k]);
        }
    }
}

/// Whether a row is what the trades of a day add up to.
pub open spec fn is_row(
    row: DailyReturn,
    day: TradingDay,
    components: Seq<String>,
    trades: Seq<ComponentTrade>,
) -> bool {
    let found = row.component_return_units;
    &&& row.day == day
    &&& forall|c: Seq<char>| #[trigger]
        found.has(c) <==> ordered::occurs(components, c) || daily::traded_on(
            trades,
            day.number(),
            c,
        )
    &&& forall|c: Seq<char>| #[trigger]
        found.has(c) ==> found.at(c) == daily::units_on(trades, day.number(), c) as i64
    &&& row.portfolio_return_units == daily::column_sum(found.values())
}

proof fn lemma_rows(
    rows: Seq<DailyReturn>,
    days: Seq<TradingDay>,
    keys: Seq<Seq<String>>,
    trades: Seq<ComponentTrade>,
    count: int,
)
    requires
        0 <= count <= days.len(),
        rows.len() == days.len(),
        forall|d: int|
            0 <= d < days.len() ==> daily::is_daily(#[trigger] rows[d], days[d], keys[d], trades),
    ensures
        portfolio_sum(rows.take(count)) == laws::calendar_sum(days.take(count), keys, trades),
    decreases count,
{
    if count > 0 {
        lemma_rows(rows, days, keys, trades, count - 1);
        assert(rows.take(count).drop_last() =~= rows.take(count - 1));
        assert(days.take(count).drop_last() =~= days.take(count - 1));
        assert(daily::is_daily(rows[count - 1], days[count - 1], keys[count - 1], trades));
    }
}

/// A configuration passes exactly where it has instruments and components, each with a name
/// of its own, and days, each after the one before.
pub proof fn law_configurations_pass_where_names_differ(config: FixedCapitalConfig)
    ensures
        run::config_problem(config) is None <==> {
            let instruments = config.instruments@;
            let components = config.components@;
            let days = config.evaluation_days@;
            &&& instruments.len() > 0 && components.len() > 0 && days.len() > 0
            &&& forall|i: int| 0 <= i < instruments.len() ==> (#[trigger] instruments[i]).id@.len() > 0
            &&& forall|i: int, j: int|
                0 <= i < j < instruments.len() ==> (#[trigger] instruments[i]).id@ != (
                #[trigger] instruments[j]).id@
            &&& forall|i: int| 0 <= i < components.len() ==> (#[trigger] components[i])@.len() > 0
            &&& forall|i: int, j: int|
                0 <= i < j < components.len() ==> (#[trigger] components[i])@ != (
                #[trigger] components[j])@
            &&& forall|i: int, j: int|
                0 <= i < j < days.len() ==> (#[trigger] days[i]).number() < (
                #[trigger] days[j]).number()
        },
{
    let instruments = config.instruments@;
    let components = config.components@;
    let ids = instruments.map_values(|instrument: FixedCapitalInstrument| instrument.id@);
    let names = components.map_values(|component: String| component@);
    assert forall|i: int| 0 <= i < ids.len() implies #[trigger] ids[i] == instruments[i].id@ by {}
    assert forall|i: int| 0 <= i < names.len() implies #[trigger] names[i] == components[i]@ by {}
    if run::proper_names(ids) {
        assert forall|i: int| 0 <= i < instruments.len() implies (
        #[trigger] instruments[i]).id@.len() > 0 by {
            assert(ids[i].len() > 0);
        }
        assert forall|i: int, j: int| 0 <= i < j < instruments.len() implies (
        #[trigger] instruments[i]).id@ != (#[trigger] instruments[j]).id@ by {
            assert(ids[i] != ids[j]);
        }
    }
    if run::proper_names(names) {
        assert forall|i: int| 0 <= i < components.len() implies (#[trigger] components[i])@.len()
            > 0 by {
            assert(names[i].len() > 0);
        }
        assert forall|i: int, j: int| 0 <= i < j < components.len() implies (
        #[trigger] components[i])@ != (#[trigger] components[j])@ by {
            assert(names[i] != names[j]);
        }
    }
}

} // verus!
