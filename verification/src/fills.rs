//! How orders live: submitted once, filled once, at the price of a later tick of
//! their instrument.

use crate::engine;
use crate::engine::{OrderState, ReducerError};
use crate::execution;
use crate::market::{Event, EventEnvelope, Fill, MarketTick, Order, OrderId, Price};
use crate::portfolio;
use vstd::prelude::*;

verus! {

/// Submitting an order makes it wait, and is refused exactly where its identifier is
/// in use. No other order changes.
pub proof fn law_submitted_orders_wait(
    orders: Map<OrderId, OrderState>,
    order: Order,
    other: OrderId,
)
    ensures
        ({
            let r = engine::reduced(orders, Event::OrderSubmitted(order));
            &&& r is Ok <==> !orders.contains_key(order.id)
            &&& r matches Err(error) ==> error == ReducerError::DuplicateOrder(order.id)
            &&& r matches Ok(next) ==> {
                &&& next.contains_key(order.id) && next[order.id] == OrderState::Pending(order)
                &&& other != order.id ==> next.contains_key(other) == orders.contains_key(other)
                    && (orders.contains_key(other) ==> next[other] == orders[other])
            }
        }),
{
}

/// Filling an order keeps it as it was submitted, with the fill; it is refused exactly
/// where the order is unknown or was filled before. No other order changes.
pub proof fn law_filled_orders_keep_their_terms(
    orders: Map<OrderId, OrderState>,
    fill: Fill,
    other: OrderId,
)
    ensures
        ({
            let r = engine::reduced(orders, Event::OrderFilled(fill));
            let id = fill.order_id;
            &&& r is Ok <==> orders.contains_key(id) && orders[id] is Pending
            &&& !orders.contains_key(id) ==> r == Err::<Map<OrderId, OrderState>, ReducerError>(
                ReducerError::UnknownOrder(id),
            )
            &&& orders.contains_key(id) && orders[id] is Filled ==> r == Err::<
                Map<OrderId, OrderState>,
                ReducerError,
            >(ReducerError::OrderAlreadyFilled(id))
            &&& r matches Ok(next) ==> {
                &&& next.contains_key(id)
                &&& orders[id] matches OrderState::Pending(order) && next[id]
                    == (OrderState::Filled { order, fill })
                &&& other != id ==> next.contains_key(other) == orders.contains_key(other) && (
                orders.contains_key(other) ==> next[other] == orders[other])
            }
        }),
{
}

/// A tick changes no order by itself.
pub proof fn law_ticks_are_never_refused(orders: Map<OrderId, OrderState>, tick: MarketTick)
    ensures
        engine::reduced(orders, Event::MarketTick(tick)) == Ok::<
            Map<OrderId, OrderState>,
            ReducerError,
        >(orders),
{
}

/// The events of a tick begin with the tick. Each that follows fills, at the price of
/// the tick, an order that waited on its instrument; they go by rising identifiers,
/// leave out none, carry the time of the tick and count on from what was recorded.
pub proof fn law_a_tick_fills_all_that_waited(
    orders: Map<OrderId, OrderState>,
    recorded: int,
    timestamp_ns: u64,
    tick: MarketTick,
    ids: Seq<OrderId>,
    id: OrderId,
)
    requires
        engine::lists_waiting(orders, tick.instrument@, ids),
        0 <= recorded,
        recorded + ids.len() < u64::MAX,
    ensures
        ({
            let events = engine::tick_events(recorded, timestamp_ns, tick, ids);
            &&& events.len() == ids.len() + 1
            &&& events[0].payload == Event::MarketTick(tick)
            &&& forall|i: int|
                0 <= i < events.len() ==> (#[trigger] events[i]).sequence == recorded + 1 + i
                    && events[i].timestamp_ns == timestamp_ns
            &&& forall|i: int|
                1 <= i < events.len() ==> is_fill_of_waiting(orders, tick, #[trigger] events[i])
            &&& forall|i: int, j: int|
                1 <= i < j < events.len() ==> filled_by(#[trigger] events[i]) < filled_by(
                    #[trigger] events[j],
                )
            &&& orders.contains_key(id) && (orders[id] matches OrderState::Pending(order)
                && order.instrument@ == tick.instrument@) ==> exists|i: int|
                1 <= i < events.len() && filled_by(#[trigger] events[i]) == id
        }),
{
    let events = engine::tick_events(recorded, timestamp_ns, tick, ids);
    assert forall|i: int| 1 <= i < events.len() implies is_fill_of_waiting(
        orders,
        tick,
        #[trigger] events[i],
    ) by {
        assert(orders.contains_key(ids[i - 1]));
    }
    if orders.contains_key(id) && (orders[id] matches OrderState::Pending(order)
        && order.instrument@ == tick.instrument@) {
        assert(orders[id].waits_on(tick.instrument@));
        assert(ids.contains(id));
        let k = choose|k: int| 0 <= k < ids.len() && ids[k] == id;
        assert(filled_by(events[k + 1]) == id);
    }
}

/// Whether an event fills an order that waits on the instrument of a tick, at its
/// price.
pub open spec fn is_fill_of_waiting(
    orders: Map<OrderId, OrderState>,
    tick: MarketTick,
    event: EventEnvelope<Event>,
) -> bool {
    event.payload matches Event::OrderFilled(fill) && fill.price == tick.price
        && orders.contains_key(fill.order_id) && (orders[fill.order_id] matches OrderState::Pending(
        order,
    ) && order.instrument@ == tick.instrument@)
}

/// The order that an event fills.
pub open spec fn filled_by(event: EventEnvelope<Event>) -> OrderId {
    match event.payload {
        Event::OrderFilled(fill) => fill.order_id,
        _ => 0,
    }
}

/// After a tick an order that waited on its instrument is filled at its price, and
/// every other order is what it was.
pub proof fn law_ticks_fill_their_instrument(
    orders: Map<OrderId, OrderState>,
    instrument: Seq<char>,
    price: Price,
    id: OrderId,
)
    requires
        orders.contains_key(id),
    ensures
        ({
            let next = engine::after_fills(orders, instrument, price);
            &&& next.contains_key(id)
            &&& match orders[id] {
                OrderState::Pending(order) => if order.instrument@ == instrument {
                    next[id] == (OrderState::Filled {
                        order,
                        fill: Fill { order_id: id, price },
                    })
                } else {
                    next[id] == orders[id]
                },
                OrderState::Filled { .. } => next[id] == orders[id],
            }
        }),
{
}

/// An order of something is filled in full at an open that comes after it, at its
/// price, and at no other.
pub proof fn law_orders_fill_at_a_later_open(
    order: execution::Order,
    open_sequence: u64,
    open_price: u64,
)
    ensures
        match execution::next_open(order, open_sequence, open_price) {
            Ok(fill) => {
                &&& order.created_sequence < open_sequence
                &&& order.quantity > 0
                &&& fill.order_id == order.id
                &&& fill.sequence == open_sequence
                &&& fill.price == open_price
                &&& fill.quantity == order.quantity
            },
            Err(execution::ExecutionError::EmptyOrder) => order.quantity == 0,
            Err(execution::ExecutionError::NonFutureOpen { created_sequence, open_sequence: at }) => {
                &&& order.quantity > 0
                &&& at == open_sequence
                &&& created_sequence == order.created_sequence
                &&& open_sequence <= order.created_sequence
            },
        },
{
}

/// A purchase adds what was filled to a position, and a sale takes it away.
pub proof fn law_purchases_add_and_sales_take(fill: execution::Fill)
    requires
        fill.quantity <= i64::MAX,
    ensures
        portfolio::delta(execution::Side::Buy, fill) == fill.quantity,
        portfolio::delta(execution::Side::Sell, fill) == -fill.quantity,
{
}

} // verus!
