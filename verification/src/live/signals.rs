//! What the model of a leg does with bars and ticks: which way it goes, when it
//! enters and leaves, and what it shows.

use crate::averages::is_held;
use crate::binary64::Binary64;
use crate::calendar;
use crate::data::HistoryBar;
use crate::live::model;
use crate::live::model::{
    CompletedBar, CtpdTick, InstrumentConfig, Leg, OpenPosition, Portfolio, Setup, Side, Target,
};
use crate::rounding;
use vstd::prelude::*;

verus! {

/// Whether a bar's numbers are numbers.
pub open spec fn is_plain(bar: CompletedBar) -> bool {
    bar.close.finite() && bar.open_interest.finite()
}

/// Whether a signal on the bar that completes as row `row` can be executed: an hour
/// of bars has passed, twenty bars are still to come, and the bar ends no later in
/// its day than the cutoff.
pub open spec fn is_in_time(setup: Setup, row: int, bar: CompletedBar) -> bool {
    &&& row >= 60
    &&& row + 20 <= setup.session_bar_count
    &&& bar.timestamp_ns % 86_400_000_000_000 <= setup.last_executable_signal_time.seconds
        * 1_000_000_000 + setup.last_executable_signal_time.nanoseconds
}

/// Whether a bar that completes is the first signal of the day: open interest has
/// grown, and the price has moved.
pub open spec fn is_first_signal(
    leg: Leg,
    setup: Setup,
    previous: CompletedBar,
    bar: CompletedBar,
) -> bool {
    &&& !leg.signal_seen
    &&& is_in_time(setup, leg.completed_rows + 1, bar)
    &&& previous.open_interest.value() < bar.open_interest.value()
    &&& previous.close.value() != bar.close.value()
}

proof fn lemma_time_of_day(timestamp_ns: u64, seconds: u32, nanoseconds: u32)
    requires
        nanoseconds < 1_000_000_000,
    ensures
        calendar::time_of_day(timestamp_ns).no_later(
            calendar::TimeOfDay { seconds, nanoseconds },
        ) <==> timestamp_ns % 86_400_000_000_000 <= seconds * 1_000_000_000 + nanoseconds,
{
    let t = timestamp_ns as int;
    let s = (t / 1_000_000_000) % 86_400;
    let n = t % 1_000_000_000;
    assert(t % 86_400_000_000_000 == s * 1_000_000_000 + n);
}

/// When a bar completes, an entry is left to wait exactly where the bar is the first
/// signal of the day that can be executed. It goes with the price: long where the
/// close lies above the close before, short where it lies below. It is for the next
/// bar, and ends twenty bars after the signal.
pub proof fn law_entries_go_with_the_price(
    leg: Leg,
    setup: Setup,
    previous: CompletedBar,
    bar: CompletedBar,
)
    requires
        leg.previous == Some(previous),
        is_plain(previous),
        is_plain(bar),
        0 <= leg.completed_rows < setup.session_bar_count <= usize::MAX,
        setup.last_executable_signal_time.nanoseconds < 1_000_000_000,
    ensures
        leg.completed(setup, bar) is Ok,
        ({
            let next = leg.completed(setup, bar)->Ok_0;
            let first = is_first_signal(leg, setup, previous, bar);
            let row = leg.completed_rows + 1;
            &&& next.completed_rows == row
            &&& next.previous == Some(bar)
            &&& next.position == leg.position
            &&& next.signal_seen == (leg.signal_seen || first)
            &&& !first ==> next.pending_entry == leg.pending_entry
            &&& first ==> (next.pending_entry matches Some(entry) && {
                &&& entry.side == Side::Long <==> previous.close.value() < bar.close.value()
                &&& entry.side == Side::Short <==> bar.close.value() < previous.close.value()
                &&& entry.entry_row == row + 1
                &&& entry.exit_row == row + 20
            })
        }),
{
    let cutoff = setup.last_executable_signal_time;
    lemma_time_of_day(bar.timestamp_ns, cutoff.seconds, cutoff.nanoseconds);
}

/// The first bar of a day is no signal, and a session takes no more bars than it has.
pub proof fn law_bars_before_and_beyond_give_no_signal(leg: Leg, setup: Setup, bar: CompletedBar)
    ensures
        leg.completed_rows >= setup.session_bar_count ==> leg.completed(setup, bar) is Err,
        leg.completed_rows < setup.session_bar_count && leg.previous is None ==> {
            &&& leg.completed(setup, bar) is Ok
            &&& leg.completed(setup, bar)->Ok_0.pending_entry == leg.pending_entry
            &&& leg.completed(setup, bar)->Ok_0.signal_seen == leg.signal_seen
            &&& leg.completed(setup, bar)->Ok_0.previous == Some(bar)
            &&& leg.completed(setup, bar)->Ok_0.completed_rows == leg.completed_rows + 1
        },
{
}

/// When a bar opens, an entry that waits for it is made at its first price, on the
/// side and up to the row that the entry says. A position is left exactly when the
/// bar of its exit row opens; else it stays as it is.
pub proof fn law_positions_open_and_end_with_bars(leg: Leg, price: Binary64)
    ensures
        ({
            let row = leg.completed_rows + 1;
            let next = leg.opened(price);
            &&& next.completed_rows == leg.completed_rows
            &&& next.signal_seen == leg.signal_seen
            &&& next.previous == leg.previous
            &&& leg.pending_entry is Some && leg.pending_entry->Some_0.entry_row == row ==> {
                &&& next.pending_entry is None
                &&& next.position is Some
                &&& next.position->Some_0.side == leg.pending_entry->Some_0.side
                &&& next.position->Some_0.entry_price == price
                &&& next.position->Some_0.exit_row == leg.pending_entry->Some_0.exit_row
            }
            &&& (leg.pending_entry is None || leg.pending_entry->Some_0.entry_row != row) ==> {
                &&& next.pending_entry == leg.pending_entry
                &&& leg.position is Some && leg.position->Some_0.exit_row == row
                    ==> next.position is None
                &&& (leg.position is None || leg.position->Some_0.exit_row != row)
                    ==> next.position == leg.position
            }
        }),
{
}

/// A target shows what the position is: as many contracts as the leg is set up for,
/// with their sign where it is long and with the other where it is short, the price
/// of its entry and the latest price. Without a position or a price none is shown.
pub proof fn law_targets_show_the_position(leg: Leg, setup: Setup, now_ms: i64)
    ensures
        leg.position is None || leg.latest_price is None ==> leg.target(setup, now_ms) == Ok::<
            Option<Target>,
            Seq<char>,
        >(None),
        leg.position is Some && leg.latest_price is Some ==> (leg.target(setup, now_ms) matches Ok(
            shown,
        ) ==> {
            &&& shown is Some
            &&& leg.position->Some_0.side == Side::Long ==> shown->Some_0.contracts
                == setup.target_contracts
            &&& leg.position->Some_0.side == Side::Short ==> shown->Some_0.contracts
                == -setup.target_contracts
            &&& shown->Some_0.entry_price == leg.position->Some_0.entry_price
            &&& shown->Some_0.latest_price == leg.latest_price->Some_0
            &&& shown->Some_0.multiplier == setup.multiplier
            &&& shown->Some_0.symbol == setup.symbol
            &&& shown->Some_0.ctpd_instrument_id == setup.ctpd_instrument_id
            &&& shown->Some_0.exchange_id == leg.exchange_id
            &&& shown->Some_0.updated_at_ms == now_ms
        }),
{
}

/// Whether the worth of contracts at a price, and of a distance of prices, has an
/// exact value at every step.
pub open spec fn is_worth_held(contracts: int, price: int, multiplier: int) -> bool {
    &&& is_held(price)
    &&& is_held(contracts * price)
    &&& exists|x: Binary64|
        x.finite() && #[trigger] x.value() * rounding::one() == contracts * price * multiplier
}

/// A position whose worth and profit have exact values is shown.
pub proof fn law_plain_positions_are_shown(
    leg: Leg,
    setup: Setup,
    position: OpenPosition,
    latest: Binary64,
    now_ms: i64,
)
    requires
        leg.position == Some(position),
        leg.latest_price == Some(latest),
        -0x20_0000_0000_0000 <= setup.target_contracts <= 0x20_0000_0000_0000,
        latest.finite(),
        position.entry_price.finite(),
        setup.multiplier.finite(),
        forall|contracts: int|
            contracts == setup.target_contracts || contracts == -setup.target_contracts
                ==> #[trigger] is_worth_held(
                contracts,
                latest.value(),
                setup.multiplier.value(),
            ) && is_worth_held(
                contracts,
                latest.value() - position.entry_price.value(),
                setup.multiplier.value(),
            ),
    ensures
        leg.target(setup, now_ms) is Ok,
{
    let contracts = match position.side {
        Side::Long => setup.target_contracts,
        Side::Short => -setup.target_contracts,
    };
    let m = setup.multiplier.value();
    assert(is_worth_held(contracts, latest.value(), m));
    rounding::law_integers_are_exact(contracts);
    let size = Binary64::of_int(contracts);
    let o = rounding::one();
    let distance = latest.value() - position.entry_price.value();
    let d = choose|d: Binary64| #[trigger] d.value() == distance && d.finite();
    rounding::law_differences_are_nearest(latest, position.entry_price, d);
    let moved = latest.difference(position.entry_price);
    lemma_worth(contracts, size, latest, setup.multiplier);
    lemma_worth(contracts, size, moved, setup.multiplier);
}

proof fn lemma_worth(contracts: int, size: Binary64, price: Binary64, multiplier: Binary64)
    requires
        size.finite(),
        size.value() == contracts * rounding::one(),
        price.finite(),
        multiplier.finite(),
        is_worth_held(contracts, price.value(), multiplier.value()),
    ensures
        size.product(price).product(multiplier).finite(),
        price.product(size).product(multiplier).finite(),
{
    let o = rounding::one();
    let p = price.value();
    let x = choose|x: Binary64| #[trigger] x.value() == contracts * p && x.finite();
    let y = choose|y: Binary64|
        y.finite() && #[trigger] y.value() * o == contracts * p * multiplier.value();
    assert(x.value() * o == (contracts * o) * p) by (nonlinear_arith)
        requires
            x.value() == contracts * p,
    ;
    assert(x.value() * o == p * (contracts * o)) by (nonlinear_arith)
        requires
            x.value() == contracts * p,
    ;
    rounding::law_products_are_nearest(size, price, x);
    rounding::law_products_are_nearest(price, size, x);
    rounding::law_products_are_nearest(size.product(price), multiplier, y);
    rounding::law_products_are_nearest(price.product(size), multiplier, y);
}

/// A bar ends with the minute that its ticks fall into: on a whole minute, after the
/// tick and no more than a minute after.
pub proof fn law_bars_end_with_their_minute(timestamp_ns: u64)
    ensures
        match model::endpoint(timestamp_ns) {
            Some(end) => end % 60_000_000_000 == 0 && timestamp_ns < end <= timestamp_ns
                + 60_000_000_000,
            None => timestamp_ns + 60_000_000_000 > u64::MAX,
        },
{
    let t = timestamp_ns as int;
    assert((t / 60_000_000_000 + 1) * 60_000_000_000 == t - t % 60_000_000_000 + 60_000_000_000);
}

/// A tick of a clock that shows seconds and milliseconds stands at their sum in
/// nanoseconds, wherever that is a timestamp.
pub proof fn law_clocks_count_nanoseconds(seconds: i64, millisec: i32)
    requires
        0 <= millisec < 1000,
    ensures
        match model::clock_nanoseconds(seconds, millisec) {
            Ok(timestamp_ns) => timestamp_ns == seconds * 1_000_000_000 + millisec * 1_000_000,
            Err(_) => seconds < 0 || seconds * 1_000_000_000 + millisec * 1_000_000 > i64::MAX,
        },
{
}

/// Whether a tick goes on with the day of a leg, after all that it has seen.
pub open spec fn goes_on(leg: Leg, tick: CtpdTick, tick_ns: u64, end: u64) -> bool {
    &&& model::endpoint(tick_ns) == Some(end)
    &&& leg.action_day == Some(tick.action_day@)
    &&& leg.seeded_through_ns matches Some(seeded) ==> seeded < end
    &&& leg.last_live_tick_ns matches Some(previous) ==> previous <= tick_ns
}

/// A bar holds the last of its ticks: within a minute a tick takes the place of the
/// one before, opens nothing and completes nothing.
pub proof fn law_bars_hold_their_last_tick(
    leg: Leg,
    setup: Setup,
    tick: CtpdTick,
    tick_ns: u64,
    current: CompletedBar,
    now_ms: i64,
)
    requires
        goes_on(leg, tick, tick_ns, current.timestamp_ns),
        leg.current == Some(current),
    ensures
        ({
            let next = leg.ingested_at(setup, tick, tick_ns, now_ms).0;
            &&& next.current matches Some(bar) && bar.timestamp_ns == current.timestamp_ns
                && bar.close == tick.last_price && bar.open_interest == tick.open_interest
            &&& next.completed_rows == leg.completed_rows
            &&& next.previous == leg.previous
            &&& next.signal_seen == leg.signal_seen
            &&& next.pending_entry == leg.pending_entry
            &&& next.position == leg.position
            &&& next.latest_price == Some(tick.last_price)
            &&& next.last_live_tick_ns == Some(tick_ns)
            &&& next.exchange_id == tick.exchange_id@
        }),
{
}

/// A tick of a later minute completes the bar, and opens its own with its price.
///
/// Where the bar that it completes is the first signal of the day, the target that
/// the tick gives is the position that the signal asks for, entered at the price of
/// the tick: long where the price had risen with open interest, short where it had
/// fallen.
pub proof fn law_a_signal_is_entered_on_the_next_bar(
    leg: Leg,
    setup: Setup,
    tick: CtpdTick,
    tick_ns: u64,
    end: u64,
    previous: CompletedBar,
    current: CompletedBar,
    now_ms: i64,
)
    requires
        goes_on(leg, tick, tick_ns, end),
        leg.current == Some(current),
        leg.previous == Some(previous),
        current.timestamp_ns < end,
        is_plain(previous),
        is_plain(current),
        0 <= leg.completed_rows < setup.session_bar_count <= usize::MAX,
        setup.last_executable_signal_time.nanoseconds < 1_000_000_000,
    ensures
        ({
            let (next, shown) = leg.ingested_at(setup, tick, tick_ns, now_ms);
            &&& next.completed_rows == leg.completed_rows + 1
            &&& next.previous == Some(current)
            &&& next.current matches Some(bar) && bar.timestamp_ns == end && bar.close
                == tick.last_price && bar.open_interest == tick.open_interest
            &&& is_first_signal(leg, setup, previous, current) ==> {
                &&& next.signal_seen
                &&& next.position matches Some(position) && position.entry_price
                    == tick.last_price && position.exit_row == leg.completed_rows + 21
                &&& shown matches Ok(target) ==> {
                    &&& target is Some
                    &&& target->Some_0.entry_price == tick.last_price
                    &&& target->Some_0.latest_price == tick.last_price
                    &&& previous.close.value() < current.close.value()
                        ==> target->Some_0.contracts == setup.target_contracts
                    &&& current.close.value() < previous.close.value()
                        ==> target->Some_0.contracts == -setup.target_contracts
                }
            }
        }),
{
    let closing = Leg { current: None, ..leg };
    law_entries_go_with_the_price(closing, setup, previous, current);
    let done = closing.completed(setup, current)->Ok_0;
    law_positions_open_and_end_with_bars(done, tick.last_price);
    let (next, shown) = leg.ingested_at(setup, tick, tick_ns, now_ms);
    law_targets_show_the_position(next, setup, now_ms);
    assert(is_first_signal(closing, setup, previous, current) == is_first_signal(
        leg,
        setup,
        previous,
        current,
    ));
}

/// A tick of another day than the last starts the day afresh: nothing of the day
/// before is kept.
pub proof fn law_a_day_starts_afresh(
    leg: Leg,
    setup: Setup,
    tick: CtpdTick,
    tick_ns: u64,
    end: u64,
    now_ms: i64,
)
    requires
        leg.action_day != Some(tick.action_day@),
        model::endpoint(tick_ns) == Some(end),
    ensures
        ({
            let (next, shown) = leg.ingested_at(setup, tick, tick_ns, now_ms);
            &&& next.action_day == Some(tick.action_day@)
            &&& next.completed_rows == 0
            &&& !next.signal_seen
            &&& next.previous is None
            &&& next.pending_entry is None
            &&& next.position is None
            &&& next.seeded_through_ns is None
            &&& next.current matches Some(bar) && bar.timestamp_ns == end
            &&& shown == Ok::<Option<Target>, Seq<char>>(None)
        }),
{
}

/// A tick that comes before the last one, or before the minute of the bar, is
/// refused, and the leg stays as it is.
pub proof fn law_ticks_come_in_order(
    leg: Leg,
    setup: Setup,
    tick: CtpdTick,
    tick_ns: u64,
    end: u64,
    now_ms: i64,
)
    requires
        model::endpoint(tick_ns) == Some(end),
        leg.action_day == Some(tick.action_day@),
        leg.seeded_through_ns matches Some(seeded) ==> seeded < end,
        (leg.last_live_tick_ns matches Some(previous) && tick_ns < previous) || (
        leg.current matches Some(bar) && end < bar.timestamp_ns),
    ensures
        leg.ingested_at(setup, tick, tick_ns, now_ms).0 == leg,
        leg.ingested_at(setup, tick, tick_ns, now_ms).1 is Err,
{
}

/// A tick is taken in only where it is of the leg's instrument and names an exchange,
/// its price is positive, its open interest is not negative, and its milliseconds are
/// part of a second. Else the leg stays as it is.
pub proof fn law_unsound_ticks_change_nothing(
    leg: Leg,
    setup: Setup,
    tick: CtpdTick,
    now_ms: i64,
)
    requires
        tick.instrument_id@ != setup.ctpd_instrument_id || tick.exchange_id@.len() == 0
            || !tick.last_price.finite() || tick.last_price.value() <= 0
            || !tick.open_interest.finite() || tick.open_interest.value() < 0
            || tick.update_millisec < 0 || tick.update_millisec > 999,
    ensures
        leg.ingested(setup, tick, now_ms).0 == leg,
        leg.ingested(setup, tick, now_ms).1 is Err,
{
}

/// A tick that is as it should be is not refused for its fields.
pub proof fn law_sound_ticks_pass(tick: CtpdTick, expected: Seq<char>)
    requires
        tick.instrument_id@ == expected,
        tick.exchange_id@.len() > 0,
        tick.last_price.finite(),
        tick.last_price.value() > 0,
        tick.open_interest.finite(),
        tick.open_interest.value() >= 0,
        0 <= tick.update_millisec <= 999,
    ensures
        model::tick_problem(tick, expected, true) is None,
        model::tick_problem(tick, expected, false) is Some,
{
}

/// The session of a day is made of the bars of that day, all of them, in order.
pub proof fn law_a_session_is_one_day(history: Seq<HistoryBar>, number: int)
    ensures
        model::same_day(history, number) == history.filter(
            |bar: HistoryBar| bar.timestamp_ns / 86_400_000_000_000 == number,
        ),
    decreases history.len(),
{
    reveal(Seq::filter);
    if history.len() > 0 {
        law_a_session_is_one_day(history.drop_last(), number);
    }
}

/// Replaying the last day of a history counts all its bars, ends with the last of
/// them, and knows through when it goes.
pub proof fn law_seeding_goes_through_the_last_day(setup: Setup, history: Seq<HistoryBar>)
    requires
        history.len() > 0,
        Leg::seeded(setup, history).1 is Ok,
    ensures
        ({
            let leg = Leg::seeded(setup, history).0;
            let last = history.last();
            let number = (last.timestamp_ns / 86_400_000_000_000) as int;
            &&& leg.seeded_through_ns == Some(last.timestamp_ns)
            &&& leg.action_day == Some(model::day_name(number))
            &&& leg.completed_rows == model::same_day(history, number).len()
            &&& leg.completed_rows <= setup.session_bar_count
            &&& leg.previous == Some(
                CompletedBar {
                    timestamp_ns: last.timestamp_ns,
                    close: last.close,
                    open_interest: last.open_interest,
                },
            )
            &&& leg.current is None
        }),
{
    let last = history.last();
    let session = model::same_day(history, model::day_of(last.timestamp_ns));
    let start = Leg::on_day(model::day_name(model::day_of(last.timestamp_ns)));
    lemma_replayed(start, setup, session);
}

proof fn lemma_replayed(start: Leg, setup: Setup, bars: Seq<HistoryBar>)
    ensures
        start.replayed(setup, bars) matches Ok(leg) ==> {
            &&& leg.completed_rows == start.completed_rows + bars.len()
            &&& leg.action_day == start.action_day
            &&& leg.current == start.current
            &&& bars.len() > 0 ==> leg.previous == Some(
                CompletedBar {
                    timestamp_ns: bars.last().timestamp_ns,
                    close: bars.last().close,
                    open_interest: bars.last().open_interest,
                },
            )
        },
    decreases bars.len(),
{
    if bars.len() > 0 {
        lemma_replayed(start, setup, bars.drop_last());
    }
}

/// A bar of a history is opened with its open and completed with its close and open
/// interest, like a bar that ticks have made.
pub proof fn law_history_is_replayed_bar_by_bar(
    leg: Leg,
    setup: Setup,
    bars: Seq<HistoryBar>,
    bar: HistoryBar,
)
    requires
        leg.replayed(setup, bars) is Ok,
    ensures
        leg.replayed(setup, Seq::empty()) == Ok::<Leg, Seq<char>>(leg),
        leg.replayed(setup, bars.push(bar)) == leg.replayed(setup, bars)->Ok_0.opened(
            bar.open,
        ).completed(
            setup,
            CompletedBar {
                timestamp_ns: bar.timestamp_ns,
                close: bar.close,
                open_interest: bar.open_interest,
            },
        ),
{
    assert(bars.push(bar).drop_last() =~= bars);
}

/// A leg is set up as its configuration says.
pub proof fn law_legs_are_set_up_as_configured(
    config: InstrumentConfig,
    cutoff: calendar::TimeOfDay,
)
    ensures
        ({
            let setup = config.setup(cutoff);
            &&& setup.symbol == config.symbol@
            &&& setup.ctpd_instrument_id == config.ctpd_instrument_id@
            &&& setup.target_contracts == config.target_contracts
            &&& setup.multiplier == config.contract_multiplier
            &&& setup.session_bar_count == config.session_bar_count
            &&& setup.last_executable_signal_time == cutoff
        }),
{
}

/// A tick moves the model of its own leg and no other, and the target that follows from it
/// is shown in place of the one before; where none follows, none is shown.
pub proof fn law_ticks_show_their_own_target(
    before: Portfolio,
    after: Portfolio,
    tick: CtpdTick,
    now_ms: i64,
    other: Seq<char>,
)
    requires
        model::is_ingested(before, after, tick, now_ms, Ok(())),
    ensures
        before.models.has(tick.instrument_id@),
        ({
            let id = tick.instrument_id@;
            let given = before.models.at(id);
            let (leg, outcome) = given.leg().ingested(given.setup(), tick, now_ms);
            &&& after.models.has(id) && after.models.at(id).leg() == leg
            &&& outcome is Ok
            &&& outcome->Ok_0 matches Some(target) ==> after.targets.has(id) && after.targets.at(
                id,
            )@ == target
            &&& outcome->Ok_0 is None ==> !after.targets.has(id)
            &&& other != id ==> {
                &&& after.targets.has(other) == before.targets.has(other)
                &&& after.models.has(other) == before.models.has(other)
                &&& before.targets.has(other) ==> after.targets.at(other) == before.targets.at(
                    other,
                )
                &&& before.models.has(other) ==> after.models.at(other) == before.models.at(other)
            }
        }),
{
    if other != tick.instrument_id@ {
        assert(model::alike(after.models, before.models, other));
        assert(model::alike(after.targets, before.targets, other));
    }
}

} // verus!
