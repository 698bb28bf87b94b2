//! Deterministic in-memory dispatch and order-state reduction.

use crate::market::{
    Event, EventEnvelope, Fill, Instrument, MarketTick, Order, OrderId, Price, Sequence,
};
use crate::text;
use std::collections::BTreeMap;
use vstd::prelude::*;
use vstd::std_specs::iter::IteratorSpec;

verus! {

#[derive(Clone, Debug, PartialEq, Eq)]
pub struct EventDispatcher {
    events: Vec<EventEnvelope<Event>>,
}

impl Default for EventDispatcher {
    fn default() -> (r: Self)
        ensures
            r@ == Seq::<EventEnvelope<Event>>::empty(),
    {
        EventDispatcher { events: Vec::new() }
    }
}

impl View for EventDispatcher {
    type V = Seq<EventEnvelope<Event>>;

    closed spec fn view(&self) -> Seq<EventEnvelope<Event>> {
        self.events@
    }
}

impl EventDispatcher {
    pub fn next_sequence(&self) -> (r: Sequence)
        requires
            self@.len() < u64::MAX,
        ensures
            r == self@.len() + 1,
    {
        self.events.len() as u64 + 1
    }

    pub fn envelope(&self, timestamp_ns: u64, payload: Event) -> (r: EventEnvelope<Event>)
        requires
            self@.len() < u64::MAX,
        ensures
            r == (EventEnvelope { sequence: (self@.len() + 1) as u64, timestamp_ns, payload }),
    {
        EventEnvelope::new(self.next_sequence(), timestamp_ns, payload)
    }

    pub fn record(&mut self, event: EventEnvelope<Event>)
        ensures
            final(self)@ == old(self)@.push(event),
    {
        self.events.push(event);
    }

    pub fn events(&self) -> (r: &[EventEnvelope<Event>])
        ensures
            r@ == self@,
    {
        self.events.as_slice()
    }
}

#[derive(Clone, Debug, PartialEq, Eq)]
pub enum OrderState {
    Pending(Order),
    Filled { order: Order, fill: Fill },
}

impl OrderState {
    /// The order that the state belongs to.
    pub open spec fn order(self) -> Order {
        match self {
            OrderState::Pending(order) => order,
            OrderState::Filled { order, .. } => order,
        }
    }

    /// Whether the order waits for a fill on an instrument.
    pub open spec fn waits_on(self, instrument: Seq<char>) -> bool {
        self matches OrderState::Pending(order) && order.instrument@ == instrument
    }
}

#[derive(Clone, Copy, Debug, PartialEq, Eq, Structural)]
pub enum ReducerError {
    DuplicateOrder(OrderId),
    UnknownOrder(OrderId),
    OrderAlreadyFilled(OrderId),
}

impl ReducerError {
    /// The sentence that reports the error.
    pub open spec fn sentence(self) -> Seq<char> {
        match self {
            ReducerError::DuplicateOrder(id) => "order "@ + text::numeral(id as nat)
                + " already exists"@,
            ReducerError::UnknownOrder(id) => "order "@ + text::numeral(id as nat)
                + " does not exist"@,
            ReducerError::OrderAlreadyFilled(id) => "order "@ + text::numeral(id as nat)
                + " is already filled"@,
        }
    }

    pub fn to_text(&self) -> (r: String)
        ensures
            r@ == self.sentence(),
    {
        let mut out: String = "order ".to_owned();
        match self {
            ReducerError::DuplicateOrder(id) => {
                text::push_numeral(&mut out, *id as u128);
                out.append(" already exists");
            },
            ReducerError::UnknownOrder(id) => {
                text::push_numeral(&mut out, *id as u128);
                out.append(" does not exist");
            },
            ReducerError::OrderAlreadyFilled(id) => {
                text::push_numeral(&mut out, *id as u128);
                out.append(" is already filled");
            },
        }
        out
    }
}

/// The orders after one event, or why the event is refused.
pub open spec fn reduced(orders: Map<OrderId, OrderState>, payload: Event) -> Result<
    Map<OrderId, OrderState>,
    ReducerError,
> {
    match payload {
        Event::MarketTick(_) => Ok(orders),
        Event::OrderSubmitted(order) => if orders.contains_key(order.id) {
            Err(ReducerError::DuplicateOrder(order.id))
        } else {
            Ok(orders.insert(order.id, OrderState::Pending(order)))
        },
        Event::OrderFilled(fill) => if !orders.contains_key(fill.order_id) {
            Err(ReducerError::UnknownOrder(fill.order_id))
        } else {
            match orders[fill.order_id] {
                OrderState::Pending(order) => Ok(
                    orders.insert(fill.order_id, OrderState::Filled { order, fill }),
                ),
                OrderState::Filled { .. } => Err(ReducerError::OrderAlreadyFilled(fill.order_id)),
            }
        },
    }
}

/// The orders after a whole stream of events, where none is refused.
pub open spec fn reduced_all(events: Seq<EventEnvelope<Event>>) -> Option<
    Map<OrderId, OrderState>,
>
    decreases events.len(),
{
    if events.len() == 0 {
        Some(Map::empty())
    } else {
        match reduced_all(events.drop_last()) {
            None => None,
            Some(orders) => match reduced(orders, events.last().payload) {
                Ok(next) => Some(next),
                Err(_) => None,
            },
        }
    }
}

/// Whether `ids` lists, in increasing order, the orders that wait on an
/// instrument.
pub open spec fn lists_waiting(
    orders: Map<OrderId, OrderState>,
    instrument: Seq<char>,
    ids: Seq<OrderId>,
) -> bool {
    &&& forall|i: int, j: int| 0 <= i < j < ids.len() ==> ids[i] < ids[j]
    &&& forall|i: int|
        0 <= i < ids.len() ==> orders.contains_key(#[trigger] ids[i]) && orders[ids[i]].waits_on(
            instrument,
        )
    &&& forall|id: OrderId| #[trigger]
        orders.contains_key(id) && orders[id].waits_on(instrument) ==> ids.contains(id)
}

/// Orders by identifier, each pending or filled.
#[derive(Clone, Debug, PartialEq, Eq)]
pub struct OrderBook {
    orders: BTreeMap<OrderId, OrderState>,
}

impl Default for OrderBook {
    fn default() -> (r: Self)
        ensures
            r@ == Map::<OrderId, OrderState>::empty(),
            r.well_formed(),
    {
        OrderBook { orders: BTreeMap::new() }
    }
}

impl View for OrderBook {
    type V = Map<OrderId, OrderState>;

    closed spec fn view(&self) -> Map<OrderId, OrderState> {
        self.orders@
    }
}

impl OrderBook {
    /// Each order stands under its own identifier.
    pub open spec fn well_formed(self) -> bool {
        forall|id: OrderId| #[trigger] self@.contains_key(id) ==> self@[id].order().id == id
    }

    /// Applies one event; a refused one changes nothing.
    pub fn apply(&mut self, event: &EventEnvelope<Event>) -> (r: Result<(), ReducerError>)
        requires
            old(self).well_formed(),
        ensures
            final(self).well_formed(),
            match reduced(old(self)@, event.payload) {
                Ok(orders) => r == Ok::<(), ReducerError>(()) && final(self)@ == orders,
                Err(error) => r == Err::<(), ReducerError>(error) && final(self)@ == old(self)@,
            },
    {
        match &event.payload {
            Event::MarketTick(_) => Ok(()),
            Event::OrderSubmitted(order) => self.insert_order(order.clone()),
            Event::OrderFilled(fill) => self.fill_order(*fill),
        }
    }

    pub fn state(&self, order_id: OrderId) -> (r: Option<&OrderState>)
        ensures
            match r {
                Some(state) => self@.contains_key(order_id) && *state == self@[order_id],
                None => !self@.contains_key(order_id),
            },
    {
        broadcast use vstd::std_specs::btree::group_btree_axioms;
        self.orders.get(&order_id)
    }

    fn pending_for(&self, instrument: &Instrument) -> (r: Vec<OrderId>)
        ensures
            lists_waiting(self@, instrument@, r@),
    {
        broadcast use vstd::std_specs::btree::group_btree_axioms;
        let mut found: Vec<OrderId> = Vec::new();
        let iter = self.orders.iter();
        let ghost all = iter.remaining();
        proof {
            let ids = all.map_values(|kv: (&OrderId, &OrderState)| *kv.0);
            assert(vstd::laws_cmp::obeys_cmp::<OrderId>());
            assert(vstd::std_specs::btree::increasing_seq(ids));
            vstd::std_specs::btree::axiom_increasing_seq_meaning(ids);
            assert forall|i: int, j: int| 0 <= i < j < all.len() implies *(#[trigger] all[i]).0
                < *(#[trigger] all[j]).0 by {
                assert(ids[i] == *all[i].0 && ids[j] == *all[j].0);
                assert(vstd::std_specs::cmp::OrdSpec::cmp_spec(&ids[i], &ids[j]) is Less);
            }
        }
        for entry in it: iter
            invariant
                it.seq() == all,
                all == vstd::std_specs::btree::spec_btree_map_iter(&self.orders).remaining(),
                forall|i: int, j: int|
                    0 <= i < j < all.len() ==> *(#[trigger] all[i]).0 < *(#[trigger] all[j]).0,
                forall|i: int, j: int| 0 <= i < j < found@.len() ==> found@[i] < found@[j],
                forall|i: int, k: int|
                    0 <= i < found@.len() && it.index() <= k < all.len() ==> #[trigger] found@[i]
                        < *(#[trigger] all[k]).0,
                forall|i: int|
                    0 <= i < found@.len() ==> self@.contains_key(#[trigger] found@[i])
                        && self@[found@[i]].waits_on(instrument@),
                forall|k: int|
                    0 <= k < it.index() && (*(#[trigger] all[k]).1).waits_on(instrument@)
                        ==> found@.contains(*all[k].0),
        {
            let ghost earlier = found@;
            match entry.1 {
                OrderState::Pending(order) => {
                    if text::same(order.instrument.as_str(), instrument.as_str()) {
                        found.push(*entry.0);
                    }
                },
                OrderState::Filled { .. } => {},
            }
            proof {
                assert(entry == all[it.index()]);
                assert(self@.contains_key(*all[it.index()].0));
                assert forall|k: int|
                    0 <= k < it.index() + 1 && (*(#[trigger] all[k]).1).waits_on(
                        instrument@,
                    ) implies found@.contains(*all[k].0) by {
                    if k < it.index() {
                        let i = choose|i: int| 0 <= i < earlier.len() && earlier[i] == *all[k].0;
                        assert(found@[i] == *all[k].0);
                    } else {
                        assert(found@[found@.len() - 1] == *all[k].0);
                    }
                }
            }
        }
        proof {
            assert forall|id: OrderId| #[trigger]
                self@.contains_key(id) && self@[id].waits_on(instrument@) implies found@.contains(
                id,
            ) by {
                assert(all.contains((&id, &self@[id])));
                let k = choose|k: int| 0 <= k < all.len() && all[k] == (&id, &self@[id]);
                assert((*all[k].1).waits_on(instrument@));
            }
        }
        found
    }

    fn insert_order(&mut self, order: Order) -> (r: Result<(), ReducerError>)
        requires
            old(self).well_formed(),
        ensures
            final(self).well_formed(),
            match reduced(old(self)@, Event::OrderSubmitted(order)) {
                Ok(orders) => r == Ok::<(), ReducerError>(()) && final(self)@ == orders,
                Err(error) => r == Err::<(), ReducerError>(error) && final(self)@ == old(self)@,
            },
    {
        broadcast use vstd::std_specs::btree::group_btree_axioms;
        if self.orders.contains_key(&order.id) {
            return Err(ReducerError::DuplicateOrder(order.id));
        }
        self.orders.insert(order.id, OrderState::Pending(order));
        Ok(())
    }

    fn fill_order(&mut self, fill: Fill) -> (r: Result<(), ReducerError>)
        requires
            old(self).well_formed(),
        ensures
            final(self).well_formed(),
            match reduced(old(self)@, Event::OrderFilled(fill)) {
                Ok(orders) => r == Ok::<(), ReducerError>(()) && final(self)@ == orders,
                Err(error) => r == Err::<(), ReducerError>(error) && final(self)@ == old(self)@,
            },
    {
        broadcast use vstd::std_specs::btree::group_btree_axioms;
        let order: Order = match self.orders.get(&fill.order_id) {
            None => {
                return Err(ReducerError::UnknownOrder(fill.order_id));
            },
            Some(OrderState::Filled { .. }) => {
                return Err(ReducerError::OrderAlreadyFilled(fill.order_id));
            },
            Some(OrderState::Pending(order)) => order.clone(),
        };
        self.orders.insert(fill.order_id, OrderState::Filled { order, fill });
        Ok(())
    }
}


/// The orders once a price has filled all that wait on an instrument.
pub open spec fn after_fills(
    orders: Map<OrderId, OrderState>,
    instrument: Seq<char>,
    price: Price,
) -> Map<OrderId, OrderState> {
    Map::new(
        |id: OrderId| orders.contains_key(id),
        |id: OrderId|
            if orders[id].waits_on(instrument) {
                OrderState::Filled {
                    order: orders[id].order(),
                    fill: Fill { order_id: id, price },
                }
            } else {
                orders[id]
            },
    )
}

/// The events of one tick: the tick itself, then a fill of each of `ids`.
pub open spec fn tick_events(
    recorded: int,
    timestamp_ns: u64,
    tick: MarketTick,
    ids: Seq<OrderId>,
) -> Seq<EventEnvelope<Event>> {
    Seq::new(
        ids.len() + 1,
        |i: int|
            EventEnvelope {
                sequence: (recorded + 1 + i) as u64,
                timestamp_ns,
                payload: if i == 0 {
                    Event::MarketTick(tick)
                } else {
                    Event::OrderFilled(Fill { order_id: ids[i - 1], price: tick.price })
                },
            },
    )
}

/// Event stream and the orders that follow from it.
#[derive(Clone, Debug, PartialEq, Eq)]
pub struct Engine {
    dispatcher: EventDispatcher,
    orders: OrderBook,
}

impl Default for Engine {
    fn default() -> (r: Self)
        ensures
            r.well_formed(),
            r.recorded() == Seq::<EventEnvelope<Event>>::empty(),
            r.book() == Map::<OrderId, OrderState>::empty(),
    {
        Engine { dispatcher: EventDispatcher::default(), orders: OrderBook::default() }
    }
}

impl Engine {
    /// The recorded events.
    pub closed spec fn recorded(self) -> Seq<EventEnvelope<Event>> {
        self.dispatcher@
    }

    /// The orders by identifier.
    pub closed spec fn book(self) -> Map<OrderId, OrderState> {
        self.orders@
    }

    /// Events count up from one, and the orders are what the events say.
    pub open spec fn well_formed(self) -> bool {
        &&& forall|i: int|
            0 <= i < self.recorded().len() ==> (#[trigger] self.recorded()[i]).sequence == i + 1
        &&& reduced_all(self.recorded()) == Some(self.book())
        &&& forall|id: OrderId| #[trigger]
            self.book().contains_key(id) ==> self.book()[id].order().id == id
    }

    /// Applies and records one event; a refused one is not recorded.
    pub fn dispatch_at(&mut self, timestamp_ns: u64, payload: Event) -> (r: Result<
        EventEnvelope<Event>,
        ReducerError,
    >)
        requires
            old(self).well_formed(),
            old(self).recorded().len() < u64::MAX,
        ensures
            final(self).well_formed(),
            match reduced(old(self).book(), payload) {
                Ok(orders) => {
                    let event = EventEnvelope {
                        sequence: (old(self).recorded().len() + 1) as u64,
                        timestamp_ns,
                        payload,
                    };
                    &&& r == Ok::<EventEnvelope<Event>, ReducerError>(event)
                    &&& final(self).recorded() == old(self).recorded().push(event)
                    &&& final(self).book() == orders
                },
                Err(error) => {
                    &&& r == Err::<EventEnvelope<Event>, ReducerError>(error)
                    &&& final(self).recorded() == old(self).recorded()
                    &&& final(self).book() == old(self).book()
                },
            },
    {
        let event = self.dispatcher.envelope(timestamp_ns, payload);
        match self.orders.apply(&event) {
            Err(error) => Err(error),
            Ok(()) => {
                let copy: EventEnvelope<Event> = event.clone();
                assert(copy == event);
                self.dispatcher.record(copy);
                assert(self.recorded().drop_last() =~= old(self).recorded());
                Ok(event)
            },
        }
    }

    /// Records a market tick, then fills each earlier pending order for that instrument.
    ///
    /// Fills come in ascending order of the order identifiers. The incoming tick is always
    /// recorded before any generated fill, so an order can only fill on a price published after
    /// that order entered the event stream. No tick is refused.
    pub fn execute_market_tick_at(&mut self, timestamp_ns: u64, tick: MarketTick) -> (r: Result<
        Vec<EventEnvelope<Event>>,
        ReducerError,
    >)
        requires
            old(self).well_formed(),
            old(self).recorded().len() < 0x7fff_ffff_ffff_ffff,
        ensures
            final(self).well_formed(),
            r is Ok,
            exists|ids: Seq<OrderId>| #[trigger]
                lists_waiting(old(self).book(), tick.instrument@, ids) && r->Ok_0@ == tick_events(
                    old(self).recorded().len() as int,
                    timestamp_ns,
                    tick,
                    ids,
                ),
            final(self).recorded() == old(self).recorded() + r->Ok_0@,
            final(self).book() == after_fills(old(self).book(), tick.instrument@, tick.price),
    {
        let pending: Vec<OrderId> = self.orders.pending_for(&tick.instrument);
        let ghost ids = pending@;
        let ghost start = self.book();
        let ghost base = self.recorded();
        let ghost name = tick.instrument@;
        proof {
            lemma_waiting_bounded(base, start, name, ids);
        }
        let mut events: Vec<EventEnvelope<Event>> = Vec::new();
        let first = self.dispatch_at(timestamp_ns, Event::MarketTick(tick.clone()))?;
        events.push(first);
        proof {
            assert(events@ =~= tick_events(base.len() as int, timestamp_ns, tick, ids).take(1));
            assert(self.recorded() =~= base + events@);
        }
        let mut i: usize = 0;
        while i < pending.len()
            invariant
                i <= pending@.len(),
                ids == pending@,
                ids.len() <= base.len(),
                base.len() < 0x7fff_ffff_ffff_ffff,
                self.well_formed(),
                lists_waiting(start, name, ids),
                name == tick.instrument@,
                forall|id: OrderId| #[trigger]
                    start.contains_key(id) ==> start[id].order().id == id,
                events@ == tick_events(base.len() as int, timestamp_ns, tick, ids).take(i + 1),
                self.recorded() == base + events@,
                self.book() == partly_filled(start, ids.take(i as int), tick.price),
            decreases pending@.len() - i,
        {
            let fill = Fill { order_id: pending[i], price: tick.price };
            proof {
                assert(ids.contains(ids[i as int]));
                assert(start.contains_key(ids[i as int]));
                assert(!ids.take(i as int).contains(ids[i as int]));
            }
            let event = self.dispatch_at(timestamp_ns, Event::OrderFilled(fill))?;
            let ghost earlier = events@;
            events.push(event);
            proof {
                let whole = tick_events(base.len() as int, timestamp_ns, tick, ids);
                assert(whole.take(i + 2) =~= whole.take(i + 1).push(whole[i + 1]));
                assert(self.recorded() =~= base + events@);
                assert(self.book() =~= partly_filled(start, ids.take(i + 1), tick.price)) by {
                    assert(ids.take(i + 1) =~= ids.take(i as int).push(ids[i as int]));
                    assert forall|id: OrderId| #[trigger]
                        ids.take(i + 1).contains(id) <==> ids.take(i as int).contains(id) || id
                        == ids[i as int] by {
                        if ids.take(i as int).contains(id) {
                            let j = ids.take(i as int).index_of(id);
                            assert(ids.take(i + 1)[j] == id);
                        }
                        assert(ids.take(i + 1)[i as int] == ids[i as int]);
                    }
                }
            }
            i = i + 1;
        }
        proof {
            assert(ids.take(ids.len() as int) =~= ids);
            let whole = tick_events(base.len() as int, timestamp_ns, tick, ids);
            assert(whole.take(ids.len() as int + 1) =~= whole);
            assert(self.book() =~= after_fills(start, name, tick.price));
        }
        Ok(events)
    }

    pub fn events(&self) -> (r: &[EventEnvelope<Event>])
        ensures
            r@ == self.recorded(),
    {
        self.dispatcher.events()
    }

    pub fn order_state(&self, order_id: OrderId) -> (r: Option<&OrderState>)
        ensures
            match r {
                Some(state) => self.book().contains_key(order_id) && *state
                    == self.book()[order_id],
                None => !self.book().contains_key(order_id),
            },
    {
        self.orders.state(order_id)
    }
}

/// The orders once a price has filled the listed ones.
spec fn partly_filled(
    orders: Map<OrderId, OrderState>,
    ids: Seq<OrderId>,
    price: Price,
) -> Map<OrderId, OrderState> {
    Map::new(
        |id: OrderId| orders.contains_key(id),
        |id: OrderId|
            if ids.contains(id) {
                OrderState::Filled {
                    order: orders[id].order(),
                    fill: Fill { order_id: id, price },
                }
            } else {
                orders[id]
            },
    )
}

/// No more orders exist than events were recorded.
proof fn lemma_orders_bounded(events: Seq<EventEnvelope<Event>>)
    ensures
        reduced_all(events) matches Some(orders) ==> orders.dom().finite() && orders.dom().len()
            <= events.len(),
    decreases events.len(),
{
    if events.len() > 0 {
        lemma_orders_bounded(events.drop_last());
        if let Some(orders) = reduced_all(events.drop_last()) {
            if let Ok(next) = reduced(orders, events.last().payload) {
                match events.last().payload {
                    Event::OrderSubmitted(order) => {
                        assert(next.dom() =~= orders.dom().insert(order.id));
                    },
                    Event::OrderFilled(fill) => {
                        assert(next.dom() =~= orders.dom());
                    },
                    Event::MarketTick(_) => {},
                }
            }
        }
    }
}

proof fn lemma_waiting_bounded(
    events: Seq<EventEnvelope<Event>>,
    orders: Map<OrderId, OrderState>,
    instrument: Seq<char>,
    ids: Seq<OrderId>,
)
    requires
        reduced_all(events) == Some(orders),
        lists_waiting(orders, instrument, ids),
    ensures
        ids.len() <= events.len(),
{
    lemma_orders_bounded(events);
    assert(ids.no_duplicates());
    ids.unique_seq_to_set();
    assert(ids.to_set().subset_of(orders.dom()));
    vstd::set_lib::lemma_len_subset(ids.to_set(), orders.dom());
}

/// The event submits the order `id`.
pub open spec fn submits(event: EventEnvelope<Event>, id: OrderId) -> bool {
    match event.payload {
        Event::OrderSubmitted(order) => order.id == id,
        _ => false,
    }
}

/// A filled order never changes again.
pub proof fn law_filled_orders_stay(
    orders: Map<OrderId, OrderState>,
    payload: Event,
    id: OrderId,
)
    requires
        orders.contains_key(id),
        orders[id] is Filled,
    ensures
        reduced(orders, payload) matches Ok(next) ==> next.contains_key(id) && next[id]
            == orders[id],
{
}

/// An order fills only on an event recorded after the one that submitted it.
pub proof fn law_fill_follows_submission(events: Seq<EventEnvelope<Event>>, at: int, id: OrderId)
    requires
        reduced_all(events) is Some,
        0 <= at < events.len(),
        events[at].payload matches Event::OrderFilled(fill) && fill.order_id == id,
    ensures
        exists|earlier: int|
            0 <= earlier < at && submits(#[trigger] events[earlier], id),
    decreases events.len(),
{
    if at == events.len() - 1 {
        lemma_known_was_submitted(events.drop_last(), id);
        let earlier = choose|earlier: int|
            0 <= earlier < at && submits(#[trigger] events.drop_last()[earlier], id);
        assert(events[earlier] == events.drop_last()[earlier]);
    } else {
        law_fill_follows_submission(events.drop_last(), at, id);
        let earlier = choose|earlier: int|
            0 <= earlier < at && submits(#[trigger] events.drop_last()[earlier], id);
        assert(events[earlier] == events.drop_last()[earlier]);
    }
}

proof fn lemma_known_was_submitted(events: Seq<EventEnvelope<Event>>, id: OrderId)
    requires
        reduced_all(events) matches Some(orders) && orders.contains_key(id),
    ensures
        exists|earlier: int|
            0 <= earlier < events.len() && submits(#[trigger] events[earlier], id),
    decreases events.len(),
{
    let before = events.drop_last();
    let orders = reduced_all(before)->0;
    if orders.contains_key(id) {
        lemma_known_was_submitted(before, id);
        let earlier = choose|earlier: int|
            0 <= earlier < before.len() && submits(#[trigger] before[earlier], id);
        assert(events[earlier] == before[earlier]);
    } else {
        assert(submits(events[events.len() - 1], id));
    }
}

} // verus!
