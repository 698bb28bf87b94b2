//! A deterministic, long-flat dual-moving-average backtest.

use crate::binary64::Binary64;
use crate::engine;
use crate::engine::{Engine, OrderState, ReducerError};
use crate::market::{Bar, Event, Fill, Instrument, MarketTick, Order, OrderId, Quantity, Side};
use crate::statistics;
use crate::text;
use vstd::prelude::*;

verus! {

#[derive(Clone, Copy, Debug, PartialEq, Eq, Structural)]
pub struct DualMovingAverage {
    pub fast_window: usize,
    pub slow_window: usize,
}

impl DualMovingAverage {
    pub fn new(fast_window: usize, slow_window: usize) -> (r: Result<Self, BacktestError>)
        ensures
            r == (if fast_window == 0 || slow_window == 0 {
                Err::<Self, BacktestError>(BacktestError::ZeroWindow)
            } else if fast_window >= slow_window {
                Err(BacktestError::InvalidWindows { fast_window, slow_window })
            } else {
                Ok(DualMovingAverage { fast_window, slow_window })
            }),
    {
        if fast_window == 0 || slow_window == 0 {
            return Err(BacktestError::ZeroWindow);
        }
        if fast_window >= slow_window {
            return Err(BacktestError::InvalidWindows { fast_window, slow_window });
        }
        Ok(DualMovingAverage { fast_window, slow_window })
    }
}

#[derive(Clone, Copy, Debug, PartialEq, Eq, Structural)]
pub enum BacktestError {
    ZeroWindow,
    InvalidWindows { fast_window: usize, slow_window: usize },
    Engine(ReducerError),
    MissingFilledOrder(OrderId),
}

impl BacktestError {
    /// The sentence that reports the error.
    pub open spec fn sentence(self) -> Seq<char> {
        match self {
            BacktestError::ZeroWindow => "moving-average windows must be non-zero"@,
            BacktestError::InvalidWindows { fast_window, slow_window } => "fast window "@
                + text::numeral(fast_window as nat) + " must be smaller than slow window "@
                + text::numeral(slow_window as nat),
            BacktestError::Engine(error) => "engine rejected backtest event: "@ + error.sentence(),
            BacktestError::MissingFilledOrder(id) => "engine did not retain filled order "@
                + text::numeral(id as nat),
        }
    }

    pub fn to_text(&self) -> (r: String)
        ensures
            r@ == self.sentence(),
    {
        match self {
            BacktestError::ZeroWindow => "moving-average windows must be non-zero".to_owned(),
            BacktestError::InvalidWindows { fast_window, slow_window } => {
                let mut out: String = "fast window ".to_owned();
                text::push_numeral(&mut out, *fast_window as u128);
                out.append(" must be smaller than slow window ");
                text::push_numeral(&mut out, *slow_window as u128);
                out
            },
            BacktestError::Engine(error) => {
                let mut out: String = "engine rejected backtest event: ".to_owned();
                out.append(error.to_text().as_str());
                out
            },
            BacktestError::MissingFilledOrder(id) => {
                let mut out: String = "engine did not retain filled order ".to_owned();
                text::push_numeral(&mut out, *id as u128);
                out
            },
        }
    }
}

#[derive(Clone, Copy, Debug, PartialEq, Eq)]
pub struct BacktestResult {
    pub bars: usize,
    pub fills: usize,
    pub ending_position: u64,
    pub realized_pnl: Binary64,
    pub mark_to_market_pnl: Binary64,
}

/// The mean of the last `window` values.
pub open spec fn recent_mean(values: Seq<Binary64>, window: int) -> Binary64 {
    statistics::mean(values.skip(values.len() - window))
}

/// The closing prices of bars.
pub open spec fn closes(bars: Seq<Bar>) -> Seq<Binary64> {
    bars.map_values(|bar: Bar| bar.close@)
}

/// Whether the strategy wants to be long, once it has bars enough to tell.
pub open spec fn wants_long(values: Seq<Binary64>, strategy: DualMovingAverage) -> Option<bool> {
    if values.len() < strategy.slow_window {
        None
    } else {
        Some(
            recent_mean(values, strategy.slow_window as int).less(
                recent_mean(values, strategy.fast_window as int),
            ),
        )
    }
}

/// Where a run stands between two bars.
pub struct Progress {
    pub position: u64,
    pub cash: Binary64,
    pub fills: int,
    /// The side of the order that waits for the next open.
    pub waiting: Option<Side>,
}

impl Progress {
    /// The waiting order is filled at the open.
    pub open spec fn opened(self, open: Binary64, quantity: u64) -> Self {
        let value = Binary64::of_int(quantity as int).product(open);
        match self.waiting {
            None => self,
            Some(Side::Buy) => Progress {
                position: (self.position + quantity) as u64,
                cash: self.cash.difference(value),
                fills: self.fills + 1,
                waiting: None,
            },
            Some(Side::Sell) => Progress {
                position: (self.position - quantity) as u64,
                cash: self.cash.total(value),
                fills: self.fills + 1,
                waiting: None,
            },
        }
    }

    /// An order is left where the position is not the wanted one.
    pub open spec fn decided(self, wanted: Option<bool>) -> Self {
        Progress {
            waiting: match wanted {
                Some(true) => if self.position == 0 {
                    Some(Side::Buy)
                } else {
                    None
                },
                Some(false) => if self.position > 0 {
                    Some(Side::Sell)
                } else {
                    None
                },
                None => None,
            },
            ..self
        }
    }
}

/// Where a run stands after bars.
pub open spec fn progress(
    bars: Seq<Bar>,
    strategy: DualMovingAverage,
    quantity: u64,
) -> Progress
    decreases bars.len(),
{
    if bars.len() == 0 {
        Progress { position: 0, cash: Binary64::of_int(0), fills: 0, waiting: None }
    } else {
        progress(bars.drop_last(), strategy, quantity).opened(bars.last().open@, quantity).decided(
            wants_long(closes(bars), strategy),
        )
    }
}

/// What a run reports after bars.
pub open spec fn outcome(
    bars: Seq<Bar>,
    strategy: DualMovingAverage,
    quantity: u64,
) -> BacktestResult {
    let last = progress(bars, strategy, quantity);
    BacktestResult {
        bars: bars.len() as usize,
        fills: last.fills as usize,
        ending_position: last.position,
        realized_pnl: last.cash,
        mark_to_market_pnl: if bars.len() == 0 {
            last.cash
        } else {
            last.cash.total(Binary64::of_int(last.position as int).product(bars.last().close@))
        },
    }
}

/// The position is never anything but flat or one full quantity long, and an
/// order waits only on the side that keeps it so.
pub proof fn law_position_is_flat_or_full(
    bars: Seq<Bar>,
    strategy: DualMovingAverage,
    quantity: u64,
)
    requires
        quantity > 0,
    ensures
        ({
            let p = progress(bars, strategy, quantity);
            &&& p.position == 0 || p.position == quantity
            &&& p.waiting == Some(Side::Buy) ==> p.position == 0
            &&& p.waiting == Some(Side::Sell) ==> p.position == quantity
            &&& 0 <= p.fills <= bars.len()
        }),
    decreases bars.len(),
{
    if bars.len() > 0 {
        law_position_is_flat_or_full(bars.drop_last(), strategy, quantity);
    }
}

/// Fills alternate between buys and sells: the number of fills is even exactly
/// where the position is flat.
pub proof fn law_fills_alternate(bars: Seq<Bar>, strategy: DualMovingAverage, quantity: u64)
    requires
        quantity > 0,
    ensures
        progress(bars, strategy, quantity).fills % 2 == 0 <==> progress(
            bars,
            strategy,
            quantity,
        ).position == 0,
    decreases bars.len(),
{
    if bars.len() > 0 {
        law_position_is_flat_or_full(bars.drop_last(), strategy, quantity);
        law_fills_alternate(bars.drop_last(), strategy, quantity);
    }
}

/// No order is left before the slow window is full.
pub proof fn law_no_order_before_the_slow_window(
    bars: Seq<Bar>,
    strategy: DualMovingAverage,
    quantity: u64,
)
    requires
        bars.len() < strategy.slow_window,
    ensures
        progress(bars, strategy, quantity) == (Progress {
            position: 0,
            cash: Binary64::of_int(0),
            fills: 0,
            waiting: None,
        }),
    decreases bars.len(),
{
    if bars.len() > 0 {
        law_no_order_before_the_slow_window(bars.drop_last(), strategy, quantity);
    }
}

/// What a bar's close says takes effect no earlier than the next bar: position
/// and cash after a bar do not depend on that bar's own close.
pub proof fn law_fills_precede_the_close(
    bars: Seq<Bar>,
    other: Bar,
    strategy: DualMovingAverage,
    quantity: u64,
)
    requires
        bars.len() > 0,
        other.open == bars.last().open,
    ensures
        ({
            let a = progress(bars, strategy, quantity);
            let b = progress(bars.drop_last().push(other), strategy, quantity);
            a.position == b.position && a.cash == b.cash && a.fills == b.fills
        }),
{
    assert(bars.drop_last().push(other).drop_last() =~= bars.drop_last());
}

/// The engine holds what `p` says: every order below `next` filled, except the
/// one that waits.
spec fn matches_progress(engine: Engine, p: Progress, next: OrderId, quantity: Quantity) -> bool {
    &&& engine.well_formed()
    &&& forall|id: OrderId| #[trigger] engine.book().contains_key(id) ==> 1 <= id < next
    &&& forall|id: OrderId|
        engine.book().contains_key(id) && (#[trigger] engine.book()[id]) is Pending ==> p.waiting
            is Some && id == next - 1
    &&& p.waiting is Some ==> {
        &&& next > 1
        &&& engine.book().contains_key((next - 1) as u64)
        &&& engine.book()[(next - 1) as u64] matches OrderState::Pending(order)
            && order.instrument@ == "PARQUET"@ && order.side == p.waiting->0 && order.quantity
            == quantity
    }
}

/// The orders that wait, as the engine lists them.
proof fn lemma_waiting(
    engine: Engine,
    p: Progress,
    next: OrderId,
    quantity: Quantity,
    ids: Seq<OrderId>,
)
    requires
        matches_progress(engine, p, next, quantity),
        engine::lists_waiting(engine.book(), "PARQUET"@, ids),
    ensures
        p.waiting is None ==> ids.len() == 0,
        p.waiting is Some ==> ids == seq![(next - 1) as u64],
{
    if p.waiting is None {
        if ids.len() > 0 {
            assert(engine.book()[ids[0]].waits_on("PARQUET"@));
        }
    } else {
        let id = (next - 1) as u64;
        assert(engine.book()[id].waits_on("PARQUET"@));
        assert(ids.contains(id));
        assert forall|i: int| 0 <= i < ids.len() implies ids[i] == id by {
            assert(engine.book()[ids[i]].waits_on("PARQUET"@));
        }
        if ids.len() > 1 {
            assert(ids[0] < ids[1]);
        }
        assert(ids =~= seq![id]);
    }
}

pub fn run_dual_moving_average(
    bars: &[Bar],
    strategy: DualMovingAverage,
    quantity: Quantity,
) -> (r: Result<BacktestResult, BacktestError>)
    requires
        strategy.fast_window <= strategy.slow_window || bars@.len() < strategy.slow_window,
        bars@.len() < 0x1fff_ffff_ffff_ffff,
    ensures
        r == Ok::<BacktestResult, BacktestError>(outcome(bars@, strategy, quantity@)),
{
    proof {
        reveal_strlit("PARQUET");
    }
    let instrument: Instrument = match Instrument::new("PARQUET") {
        Some(instrument) => instrument,
        None => {
            assert(false);
            return Err(BacktestError::ZeroWindow);
        },
    };
    let mut engine: Engine = Engine::default();
    let mut closing: Vec<Binary64> = Vec::new();
    let mut position: u64 = 0;
    let mut realized_pnl: Binary64 = Binary64::from_u64(0);
    let mut fills: usize = 0;
    let mut next_order_id: OrderId = 1;
    let size: u64 = quantity.value();
    let mut i: usize = 0;
    assert(bars@.take(0) =~= Seq::<Bar>::empty());
    assert(closes(bars@.take(0)) =~= Seq::<Binary64>::empty());
    while i < bars.len()
        invariant
            i <= bars@.len(),
            strategy.fast_window <= strategy.slow_window || bars@.len() < strategy.slow_window,
            bars@.len() < 0x1fff_ffff_ffff_ffff,
            size == quantity@,
            size > 0,
            instrument@ == "PARQUET"@,
            closing@ == closes(bars@.take(i as int)),
            ({
                let p = progress(bars@.take(i as int), strategy, size);
                &&& p.position == position
                &&& p.cash == realized_pnl
                &&& p.fills == fills
                &&& matches_progress(engine, p, next_order_id, quantity)
            }),
            1 <= next_order_id <= i + 1,
            engine.recorded().len() <= 3 * i,
        decreases bars@.len() - i,
    {
        let bar: Bar = bars[i];
        let ghost p = progress(bars@.take(i as int), strategy, size);
        let ghost q = p.opened(bar.open@, size);
        proof {
            law_position_is_flat_or_full(bars@.take(i as int), strategy, size);
            assert(bars@.take(i + 1).drop_last() =~= bars@.take(i as int));
            assert(closes(bars@.take(i + 1)) =~= closing@.push(bar.close@));
        }
        apply_open(
            &mut engine,
            &instrument,
            &bar,
            &mut position,
            &mut realized_pnl,
            &mut fills,
            quantity,
            Ghost(p),
            Ghost(next_order_id),
        )?;
        closing.push(bar.close.value());
        i = i + 1;
        let side: Option<Side> = match signal(closing.as_slice(), strategy) {
            None => None,
            Some(Signal::Long) => if position == 0 {
                Some(Side::Buy)
            } else {
                None
            },
            Some(Signal::Flat) => if position > 0 {
                Some(Side::Sell)
            } else {
                None
            },
        };
        if let Some(side) = side {
            let order: Order = Order::new(next_order_id, instrument.clone(), side, quantity);
            match engine.dispatch_at(bar.timestamp_ns, Event::OrderSubmitted(order)) {
                Ok(_) => {},
                Err(error) => {
                    return Err(BacktestError::Engine(error));
                },
            }
            next_order_id = next_order_id + 1;
        }
    }
    proof {
        assert(bars@.take(bars@.len() as int) =~= bars@);
        law_position_is_flat_or_full(bars@, strategy, size);
    }
    let mark_to_market_pnl: Binary64 = if bars.len() == 0 {
        realized_pnl
    } else {
        realized_pnl.plus(
            Binary64::from_u64(position).times(bars[bars.len() - 1].close.value()),
        )
    };
    Ok(
        BacktestResult {
            bars: bars.len(),
            fills,
            ending_position: position,
            realized_pnl,
            mark_to_market_pnl,
        },
    )
}

/// Publishes the open and books the fill of the order that waited for it.
fn apply_open(
    engine: &mut Engine,
    instrument: &Instrument,
    bar: &Bar,
    position: &mut u64,
    realized_pnl: &mut Binary64,
    fills: &mut usize,
    quantity: Quantity,
    Ghost(p): Ghost<Progress>,
    Ghost(next): Ghost<OrderId>,
) -> (r: Result<(), BacktestError>)
    requires
        matches_progress(*old(engine), p, next, quantity),
        instrument@ == "PARQUET"@,
        p.position == *old(position),
        p.cash == *old(realized_pnl),
        p.fills == *old(fills),
        p.position == 0 || p.position == quantity@,
        p.waiting == Some(Side::Buy) ==> p.position == 0,
        p.waiting == Some(Side::Sell) ==> p.position == quantity@,
        *old(fills) < usize::MAX,
        old(engine).recorded().len() < 0x7fff_ffff_ffff_ffff,
    ensures
        r is Ok,
        ({
            let q = p.opened(bar.open@, quantity@);
            &&& q.position == *final(position)
            &&& q.cash == *final(realized_pnl)
            &&& q.fills == *final(fills)
            &&& matches_progress(*final(engine), q, next, quantity)
        }),
        final(engine).recorded().len() <= old(engine).recorded().len() + 2,
{
    let tick = MarketTick { instrument: instrument.clone(), price: bar.open };
    let ghost start = *engine;
    let generated = match engine.execute_market_tick_at(bar.timestamp_ns, tick) {
        Ok(generated) => generated,
        Err(error) => {
            return Err(BacktestError::Engine(error));
        },
    };
    let ghost q = p.opened(bar.open@, quantity@);
    let ghost ids = choose|ids: Seq<OrderId>| #[trigger]
        engine::lists_waiting(start.book(), "PARQUET"@, ids) && generated@ == engine::tick_events(
            start.recorded().len() as int,
            bar.timestamp_ns,
            tick,
            ids,
        );
    proof {
        lemma_waiting(start, p, next, quantity, ids);
        assert(matches_progress(*engine, q, next, quantity)) by {
            assert forall|id: OrderId|
                engine.book().contains_key(id) && (#[trigger] engine.book()[id]) is Pending implies
                q.waiting is Some && id == next - 1 by {
                assert(start.book()[id] is Pending);
            }
        }
    }
    let mut i: usize = 0;
    while i < generated.len()
        invariant
            i <= generated@.len(),
            generated@ == engine::tick_events(
                start.recorded().len() as int,
                bar.timestamp_ns,
                tick,
                ids,
            ),
            p.waiting is None ==> ids.len() == 0,
            p.waiting is Some ==> ids == seq![(next - 1) as u64],
            matches_progress(start, p, next, quantity),
            engine.book() == engine::after_fills(start.book(), "PARQUET"@, bar.open),
            tick.price == bar.open,
            q == p.opened(bar.open@, quantity@),
            p.position == 0 || p.position == quantity@,
            p.waiting == Some(Side::Buy) ==> p.position == 0,
            p.waiting == Some(Side::Sell) ==> p.position == quantity@,
            p.fills < usize::MAX,
            i <= 1 ==> *position == p.position && *realized_pnl == p.cash && *fills == p.fills,
            i > 1 ==> *position == q.position && *realized_pnl == q.cash && *fills == q.fills,
        decreases generated@.len() - i,
    {
        match &generated[i].payload {
            Event::OrderFilled(fill) => {
                let fill: Fill = *fill;
                proof {
                    assert(i == 1);
                    assert(fill == (Fill { order_id: (next - 1) as u64, price: bar.open }));
                    assert(start.book()[fill.order_id].waits_on("PARQUET"@));
                }
                match engine.order_state(fill.order_id) {
                    Some(OrderState::Filled { order, .. }) => {
                        let size: u64 = order.quantity.value();
                        let value: Binary64 = Binary64::from_u64(size).times(fill.price.value());
                        match order.side {
                            Side::Buy => {
                                *position = *position + size;
                                *realized_pnl = realized_pnl.minus(value);
                            },
                            Side::Sell => {
                                *position = *position - size;
                                *realized_pnl = realized_pnl.plus(value);
                            },
                        }
                        *fills = *fills + 1;
                    },
                    _ => {
                        return Err(BacktestError::MissingFilledOrder(fill.order_id));
                    },
                }
            },
            _ => {
                assert(i == 0);
            },
        }
        i = i + 1;
    }
    Ok(())
}

#[derive(Clone, Copy, Debug, PartialEq, Eq, Structural)]
enum Signal {
    Long,
    Flat,
}

fn signal(closing: &[Binary64], strategy: DualMovingAverage) -> (r: Option<Signal>)
    requires
        closing@.len() >= strategy.slow_window ==> closing@.len() >= strategy.fast_window,
    ensures
        match wants_long(closing@, strategy) {
            None => r is None,
            Some(true) => r == Some(Signal::Long),
            Some(false) => r == Some(Signal::Flat),
        },
{
    if closing.len() < strategy.slow_window {
        return None;
    }
    let fast: Binary64 = statistics::average(closing, closing.len() - strategy.fast_window);
    let slow: Binary64 = statistics::average(closing, closing.len() - strategy.slow_window);
    if slow.is_less(fast) {
        Some(Signal::Long)
    } else {
        Some(Signal::Flat)
    }
}

} // verus!
