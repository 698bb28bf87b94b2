//! Why a restart loses nothing: a session that was replayed from its bars stands
//! where the same session stood when its ticks came in live.

use crate::binary64::Binary64;
use crate::data::HistoryBar;
use crate::live::model;
use crate::live::model::{CompletedBar, CtpdTick, Leg, Setup};
use vstd::prelude::*;

verus! {

/// A leg after ticks, one after the other.
pub open spec fn ticked(leg: Leg, setup: Setup, ticks: Seq<CtpdTick>, now_ms: i64) -> Leg
    decreases ticks.len(),
{
    if ticks.len() == 0 {
        leg
    } else {
        ticked(leg, setup, ticks.drop_last(), now_ms).ingested(setup, ticks.last(), now_ms).0
    }
}

/// A leg after the ticks of bars, one bar after the other.
pub open spec fn session_ticked(
    leg: Leg,
    setup: Setup,
    session: Seq<Seq<CtpdTick>>,
    now_ms: i64,
) -> Leg
    decreases session.len(),
{
    if session.len() == 0 {
        leg
    } else {
        ticked(
            session_ticked(leg, setup, session.drop_last(), now_ms),
            setup,
            session.last(),
            now_ms,
        )
    }
}

/// Whether a tick is one that the feed may send in the minute that ends at
/// `endpoint_ns`.
pub open spec fn falls_into(
    tick: CtpdTick,
    setup: Setup,
    day: Seq<char>,
    endpoint_ns: u64,
) -> bool {
    &&& model::invalid_tick(tick, setup.ctpd_instrument_id) is None
    &&& tick.action_day@ == day
    &&& model::tick_time(tick) matches Ok(tick_ns) && model::endpoint(tick_ns) == Some(endpoint_ns)
}

/// Whether ticks make up a bar: they fall into its minute in the order of their
/// times, the first is its open, and the last its close.
pub open spec fn makes_up(
    ticks: Seq<CtpdTick>,
    setup: Setup,
    day: Seq<char>,
    bar: HistoryBar,
) -> bool {
    &&& ticks.len() > 0
    &&& forall|i: int|
        0 <= i < ticks.len() ==> falls_into(#[trigger] ticks[i], setup, day, bar.timestamp_ns)
    &&& forall|i: int, j: int|
        0 <= i < j < ticks.len() ==> model::tick_time(#[trigger] ticks[i])->Ok_0
            <= model::tick_time(#[trigger] ticks[j])->Ok_0
    &&& ticks[0].last_price == bar.open
    &&& ticks.last().last_price == bar.close
    &&& ticks.last().open_interest == bar.open_interest
}

/// Whether ticks make up the bars of one day, in increasing order.
pub open spec fn is_session(
    session: Seq<Seq<CtpdTick>>,
    setup: Setup,
    bars: Seq<HistoryBar>,
    number: int,
) -> bool {
    &&& session.len() == bars.len()
    &&& forall|i: int|
        0 <= i < bars.len() ==> makes_up(
            #[trigger] session[i],
            setup,
            model::day_name(number),
            bars[i],
        )
    &&& forall|i: int|
        0 <= i < bars.len() ==> model::day_of((#[trigger] bars[i]).timestamp_ns) == number
    &&& forall|i: int, j: int|
        0 <= i < j < bars.len() ==> (#[trigger] bars[i]).timestamp_ns < (
        #[trigger] bars[j]).timestamp_ns
}

/// A bar of history, without its open.
spec fn closed_bar(bar: HistoryBar) -> CompletedBar {
    CompletedBar {
        timestamp_ns: bar.timestamp_ns,
        close: bar.close,
        open_interest: bar.open_interest,
    }
}

/// The leg while a bar is open on top of what was completed.
spec fn in_bar(
    base: Leg,
    open: Binary64,
    endpoint_ns: u64,
    tick: CtpdTick,
) -> Leg {
    Leg {
        current: Some(
            CompletedBar {
                timestamp_ns: endpoint_ns,
                close: tick.last_price,
                open_interest: tick.open_interest,
            },
        ),
        last_live_tick_ns: Some(model::tick_time(tick)->Ok_0),
        exchange_id: tick.exchange_id@,
        latest_price: Some(tick.last_price),
        ..base.opened(open)
    }
}

/// What a leg has completed, once its open bar is completed too.
spec fn settled(leg: Leg, setup: Setup) -> Result<Leg, Seq<char>> {
    match leg.current {
        None => Ok(leg),
        Some(current) => Leg { current: None, ..leg }.completed(setup, current),
    }
}

/// Whether a leg can take a tick of a later minute in.
spec fn ready(leg: Leg, day: Seq<char>, endpoint_ns: u64) -> bool {
    &&& leg.action_day == Some(day)
    &&& leg.seeded_through_ns matches Some(seeded) ==> seeded < endpoint_ns
    &&& leg.current matches Some(current) ==> current.timestamp_ns < endpoint_ns
    &&& leg.last_live_tick_ns matches Some(previous) ==> model::endpoint(previous) matches Some(end)
        && end < endpoint_ns
}

proof fn lemma_earlier_minute(earlier: u64, later: u64)
    requires
        model::endpoint(earlier) is Some,
        model::endpoint(later) is Some,
        model::endpoint(earlier)->0 < model::endpoint(later)->0,
    ensures
        earlier < later,
{
    if later <= earlier {
        assert(later / model::NANOSECONDS_PER_MINUTE <= earlier / model::NANOSECONDS_PER_MINUTE)
            by (nonlinear_arith)
            requires
                later <= earlier,
                model::NANOSECONDS_PER_MINUTE == 60_000_000_000,
        ;
    }
}

/// The first tick of a bar completes the bar before it and opens this one.
proof fn lemma_first_tick(
    leg: Leg,
    base: Leg,
    setup: Setup,
    tick: CtpdTick,
    day: Seq<char>,
    endpoint_ns: u64,
    now_ms: i64,
)
    requires
        ready(leg, day, endpoint_ns),
        settled(leg, setup) == Ok::<Leg, Seq<char>>(base),
        falls_into(tick, setup, day, endpoint_ns),
    ensures
        leg.ingested(setup, tick, now_ms) == ({
            let next = in_bar(base, tick.last_price, endpoint_ns, tick);
            (next, next.target(setup, now_ms))
        }),
{
    let tick_ns = model::tick_time(tick)->Ok_0;
    if let Some(previous) = leg.last_live_tick_ns {
        lemma_earlier_minute(previous, tick_ns);
    }
    let (next, error) = leg.with_tick(setup, tick, endpoint_ns);
    assert(error is None);
    assert(next == base.with_bar(tick, endpoint_ns));
    assert(leg.ingested(setup, tick, now_ms).0 =~= in_bar(
        base,
        tick.last_price,
        endpoint_ns,
        tick,
    ));
}

/// A later tick of a bar moves its close.
proof fn lemma_next_tick(
    base: Leg,
    open: Binary64,
    setup: Setup,
    before: CtpdTick,
    tick: CtpdTick,
    day: Seq<char>,
    endpoint_ns: u64,
    now_ms: i64,
)
    requires
        base.action_day == Some(day),
        base.seeded_through_ns matches Some(seeded) ==> seeded < endpoint_ns,
        falls_into(before, setup, day, endpoint_ns),
        falls_into(tick, setup, day, endpoint_ns),
        model::tick_time(before)->Ok_0 <= model::tick_time(tick)->Ok_0,
    ensures
        in_bar(base, open, endpoint_ns, before).ingested(setup, tick, now_ms).0 == in_bar(
            base,
            open,
            endpoint_ns,
            tick,
        ),
{
    let leg = in_bar(base, open, endpoint_ns, before);
    assert(leg.action_day == Some(day));
    assert(leg.ingested(setup, tick, now_ms).0 =~= in_bar(base, open, endpoint_ns, tick));
}

/// The ticks of a bar leave the leg in that bar.
proof fn lemma_bar_ticked(
    leg: Leg,
    base: Leg,
    setup: Setup,
    ticks: Seq<CtpdTick>,
    count: int,
    day: Seq<char>,
    bar: HistoryBar,
    now_ms: i64,
)
    requires
        ready(leg, day, bar.timestamp_ns),
        settled(leg, setup) == Ok::<Leg, Seq<char>>(base),
        makes_up(ticks, setup, day, bar),
        0 < count <= ticks.len(),
    ensures
        ticked(leg, setup, ticks.take(count), now_ms) == in_bar(
            base,
            bar.open,
            bar.timestamp_ns,
            ticks[count - 1],
        ),
    decreases count,
{
    let seen = ticks.take(count);
    assert(seen.drop_last() =~= ticks.take(count - 1));
    assert(seen.last() == ticks[count - 1]);
    if count == 1 {
        assert(ticked(leg, setup, seen.drop_last(), now_ms) == leg);
        lemma_first_tick(leg, base, setup, ticks[0], day, bar.timestamp_ns, now_ms);
    } else {
        lemma_bar_ticked(leg, base, setup, ticks, count - 1, day, bar, now_ms);
        assert(base.action_day == Some(day));
        assert(base.seeded_through_ns == leg.seeded_through_ns);
        lemma_next_tick(
            base,
            bar.open,
            setup,
            ticks[count - 2],
            ticks[count - 1],
            day,
            bar.timestamp_ns,
            now_ms,
        );
    }
}

/// Whether two legs have completed the same, whatever prices they last saw.
spec fn same_session(a: Leg, b: Leg) -> bool {
    &&& a.action_day == b.action_day
    &&& a.completed_rows == b.completed_rows
    &&& a.signal_seen == b.signal_seen
    &&& a.previous == b.previous
    &&& a.pending_entry == b.pending_entry
    &&& a.position == b.position
}

proof fn lemma_session_restored(
    setup: Setup,
    session: Seq<Seq<CtpdTick>>,
    bars: Seq<HistoryBar>,
    number: int,
    now_ms: i64,
)
    requires
        is_session(session, setup, bars, number),
        bars.len() <= setup.session_bar_count,
    ensures
        ({
            let live = session_ticked(
                Leg::on_day(model::day_name(number)),
                setup,
                session,
                now_ms,
            );
            let replayed = Leg::on_day(model::day_name(number)).replayed(setup, bars);
            &&& replayed is Ok
            &&& replayed->Ok_0.completed_rows == bars.len()
            &&& replayed->Ok_0.current is None
            &&& replayed->Ok_0.last_live_tick_ns is None
            &&& settled(live, setup) matches Ok(base) && same_session(base, replayed->Ok_0)
                && base.current is None
            &&& live.action_day == Some(model::day_name(number))
            &&& live.seeded_through_ns is None
            &&& bars.len() > 0 ==> (live.current matches Some(current) && current.timestamp_ns
                == bars.last().timestamp_ns)
            &&& bars.len() > 0 ==> (live.last_live_tick_ns matches Some(previous)
                && model::endpoint(previous) == Some(bars.last().timestamp_ns))
            &&& bars.len() == 0 ==> live.current is None && live.last_live_tick_ns is None
        }),
    decreases bars.len(),
{
    let day = model::day_name(number);
    let start = Leg::on_day(day);
    if bars.len() > 0 {
        let earlier = bars.drop_last();
        let earlier_session = session.drop_last();
        let bar = bars.last();
        let ticks = session.last();
        assert forall|i: int| 0 <= i < earlier.len() implies makes_up(
            #[trigger] earlier_session[i],
            setup,
            day,
            earlier[i],
        ) by {
            assert(earlier_session[i] == session[i]);
        }
        lemma_session_restored(setup, earlier_session, earlier, number, now_ms);
        let leg = session_ticked(start, setup, earlier_session, now_ms);
        let base = settled(leg, setup)->Ok_0;
        let replayed = start.replayed(setup, earlier)->Ok_0;
        assert(makes_up(session[bars.len() - 1], setup, day, bars[bars.len() - 1]));
        if earlier.len() > 0 {
            assert(bars[earlier.len() - 1].timestamp_ns < bars[bars.len() - 1].timestamp_ns);
        }
        assert(ready(leg, day, bar.timestamp_ns));
        lemma_bar_ticked(
            leg,
            base,
            setup,
            ticks,
            ticks.len() as int,
            day,
            bar,
            now_ms,
        );
        assert(ticks.take(ticks.len() as int) =~= ticks);
        let live = session_ticked(start, setup, session, now_ms);
        assert(live == in_bar(base, bar.open, bar.timestamp_ns, ticks.last()));
        let closing = Leg { current: None, ..live };
        assert(same_session(closing, replayed.opened(bar.open)));
        assert(settled(live, setup) == closing.completed(setup, closed_bar(bar)));
        assert(start.replayed(setup, bars) == replayed.opened(bar.open).completed(
            setup,
            closed_bar(bar),
        ));
    }
}

proof fn lemma_whole_day(bars: Seq<HistoryBar>, number: int)
    requires
        forall|i: int|
            0 <= i < bars.len() ==> model::day_of((#[trigger] bars[i]).timestamp_ns) == number,
    ensures
        model::same_day(bars, number) == bars,
    decreases bars.len(),
{
    if bars.len() > 0 {
        assert(bars[bars.len() - 1] == bars.last());
        assert forall|i: int| 0 <= i < bars.drop_last().len() implies model::day_of(
            (#[trigger] bars.drop_last()[i]).timestamp_ns,
        ) == number by {
            assert(bars.drop_last()[i] == bars[i]);
        }
        lemma_whole_day(bars.drop_last(), number);
        assert(bars.drop_last().push(bars.last()) =~= bars);
    }
}

/// Seeding a leg with the bars of a session restores what the live ticks of
/// that session had made of it: the next tick of a later minute shows the same
/// target either way, and leaves the same rows, signal, waiting entry, position
/// and open bar.
pub proof fn law_history_restores_the_live_state(
    setup: Setup,
    session: Seq<Seq<CtpdTick>>,
    bars: Seq<HistoryBar>,
    number: int,
    next: CtpdTick,
    endpoint_ns: u64,
    now_ms: i64,
)
    requires
        is_session(session, setup, bars, number),
        0 < bars.len() <= setup.session_bar_count,
        falls_into(next, setup, model::day_name(number), endpoint_ns),
        bars.last().timestamp_ns < endpoint_ns,
    ensures
        Leg::seeded(setup, bars).1 is Ok,
        ({
            let live = session_ticked(
                Leg::on_day(model::day_name(number)),
                setup,
                session,
                now_ms,
            ).ingested(setup, next, now_ms);
            let restored = Leg::seeded(setup, bars).0.ingested(setup, next, now_ms);
            &&& live.1 == restored.1
            &&& live.0 == (Leg {
                seeded_through_ns: live.0.seeded_through_ns,
                ..restored.0
            })
        }),
{
    let day = model::day_name(number);
    lemma_whole_day(bars, number);
    assert(model::day_of(bars[bars.len() - 1].timestamp_ns) == number);
    lemma_session_restored(setup, session, bars, number, now_ms);
    let live = session_ticked(Leg::on_day(day), setup, session, now_ms);
    let base = settled(live, setup)->Ok_0;
    lemma_first_tick(live, base, setup, next, day, endpoint_ns, now_ms);
    let restored = Leg::seeded(setup, bars).0;
    assert(restored.action_day == Some(day));
    assert(settled(restored, setup) == Ok::<Leg, Seq<char>>(restored));
    lemma_first_tick(restored, restored, setup, next, day, endpoint_ns, now_ms);
    let a = in_bar(base, next.last_price, endpoint_ns, next);
    let b = in_bar(restored, next.last_price, endpoint_ns, next);
    assert(a.position == b.position);
    assert(a.target(setup, now_ms) == b.target(setup, now_ms));
    assert(a =~= Leg { seeded_through_ns: a.seeded_through_ns, ..b });
}

} // verus!
