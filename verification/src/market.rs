//! Shared domain types for the event stream.

use crate::binary64::Binary64;
use std::cmp::Ordering;
use vstd::prelude::*;
use vstd::std_specs::cmp::PartialOrdSpecImpl;

verus! {

pub type OrderId = u64;

pub type Sequence = u64;

/// A price counted in ticks.
pub type PriceTicks = u64;

/// A non-empty instrument name.
#[derive(Debug, PartialEq, Eq, PartialOrd, Ord)]
pub struct Instrument {
    name: String,
}

impl View for Instrument {
    type V = Seq<char>;

    closed spec fn view(&self) -> Seq<char> {
        self.name@
    }
}

impl Instrument {
    #[verifier::type_invariant]
    spec fn named(self) -> bool {
        self.name@.len() > 0
    }

    pub fn new(value: &str) -> (r: Option<Self>)
        ensures
            match r {
                Some(instrument) => value@.len() > 0 && instrument@ == value@,
                None => value@.len() == 0,
            },
    {
        if value.is_empty() {
            None
        } else {
            Some(Instrument { name: value.to_owned() })
        }
    }

    pub fn as_str(&self) -> (r: &str)
        ensures
            r@ == self@,
            r@.len() > 0,
    {
        proof {
            use_type_invariant(self);
        }
        self.name.as_str()
    }
}

impl Clone for Instrument {
    fn clone(&self) -> (r: Self)
        ensures
            r == *self,
    {
        proof {
            use_type_invariant(self);
        }
        Instrument { name: self.name.clone() }
    }
}

/// A positive, finite price.
#[derive(Clone, Copy, Debug, PartialEq, Eq)]
pub struct Price {
    amount: Binary64,
}

impl View for Price {
    type V = Binary64;

    closed spec fn view(&self) -> Binary64 {
        self.amount
    }
}

impl Price {
    #[verifier::type_invariant]
    spec fn valid(self) -> bool {
        self.amount.finite() && self.amount.positive()
    }

    pub fn new(value: Binary64) -> (r: Option<Self>)
        ensures
            match r {
                Some(price) => value.finite() && value.positive() && price@ == value,
                None => !(value.finite() && value.positive()),
            },
    {
        if value.is_finite() && value.is_positive() {
            Some(Price { amount: value })
        } else {
            None
        }
    }

    pub fn value(self) -> (r: Binary64)
        ensures
            r == self@,
            r.finite(),
            r.positive(),
    {
        proof {
            use_type_invariant(&self);
        }
        self.amount
    }
}

impl PartialOrd for Price {
    /// By the numbers.
    fn partial_cmp(&self, other: &Self) -> (r: Option<Ordering>) {
        if self.amount.is_less(other.amount) {
            Some(Ordering::Less)
        } else if other.amount.is_less(self.amount) {
            Some(Ordering::Greater)
        } else {
            Some(Ordering::Equal)
        }
    }
}

impl PartialOrdSpecImpl for Price {
    open spec fn obeys_partial_cmp_spec() -> bool {
        true
    }

    open spec fn partial_cmp_spec(&self, other: &Self) -> Option<Ordering> {
        if self@.less(other@) {
            Some(Ordering::Less)
        } else if other@.less(self@) {
            Some(Ordering::Greater)
        } else {
            Some(Ordering::Equal)
        }
    }
}

/// A positive number of contracts.
#[derive(Clone, Copy, Debug, PartialEq, Eq, PartialOrd, Ord)]
pub struct Quantity {
    count: u64,
}

impl View for Quantity {
    type V = u64;

    closed spec fn view(&self) -> u64 {
        self.count
    }
}

impl Quantity {
    #[verifier::type_invariant]
    spec fn valid(self) -> bool {
        self.count > 0
    }

    pub fn new(value: u64) -> (r: Option<Self>)
        ensures
            match r {
                Some(quantity) => value > 0 && quantity@ == value,
                None => value == 0,
            },
    {
        if value > 0 {
            Some(Quantity { count: value })
        } else {
            None
        }
    }

    pub fn value(self) -> (r: u64)
        ensures
            r == self@,
            r > 0,
    {
        proof {
            use_type_invariant(&self);
        }
        self.count
    }
}

#[derive(Clone, Copy, Debug, PartialEq, Eq, Structural)]
pub enum Side {
    Buy,
    Sell,
}

#[derive(Debug, PartialEq, Eq)]
pub struct Order {
    pub id: OrderId,
    pub instrument: Instrument,
    pub side: Side,
    pub quantity: Quantity,
}

impl Order {
    pub fn new(id: OrderId, instrument: Instrument, side: Side, quantity: Quantity) -> (r: Self)
        ensures
            r == (Order { id, instrument, side, quantity }),
    {
        Order { id, instrument, side, quantity }
    }
}

impl Clone for Order {
    fn clone(&self) -> (r: Self)
        ensures
            r == *self,
    {
        Order {
            id: self.id,
            instrument: self.instrument.clone(),
            side: self.side,
            quantity: self.quantity,
        }
    }
}

#[derive(Debug, PartialEq, Eq)]
pub struct MarketTick {
    pub instrument: Instrument,
    pub price: Price,
}

impl Clone for MarketTick {
    fn clone(&self) -> (r: Self)
        ensures
            r == *self,
    {
        MarketTick { instrument: self.instrument.clone(), price: self.price }
    }
}

#[derive(Clone, Copy, Debug, PartialEq, Eq)]
pub struct Fill {
    pub order_id: OrderId,
    pub price: Price,
}

#[derive(Clone, Copy, Debug, PartialEq, Eq)]
pub struct Bar {
    pub timestamp_ns: u64,
    pub open: Price,
    pub close: Price,
}

impl Bar {
    pub fn new(timestamp_ns: u64, open: Price, close: Price) -> (r: Self)
        ensures
            r == (Bar { timestamp_ns, open, close }),
    {
        Bar { timestamp_ns, open, close }
    }
}

#[derive(Debug, PartialEq, Eq)]
pub enum Event {
    MarketTick(MarketTick),
    OrderSubmitted(Order),
    OrderFilled(Fill),
}

impl Clone for Event {
    fn clone(&self) -> (r: Self)
        ensures
            r == *self,
    {
        match self {
            Event::MarketTick(tick) => Event::MarketTick(tick.clone()),
            Event::OrderSubmitted(order) => Event::OrderSubmitted(order.clone()),
            Event::OrderFilled(fill) => Event::OrderFilled(*fill),
        }
    }
}

#[derive(Debug, PartialEq, Eq)]
pub struct EventEnvelope<T> {
    pub sequence: Sequence,
    pub timestamp_ns: u64,
    pub payload: T,
}

impl<T> EventEnvelope<T> {
    pub fn new(sequence: Sequence, timestamp_ns: u64, payload: T) -> (r: Self)
        ensures
            r == (EventEnvelope { sequence, timestamp_ns, payload }),
    {
        EventEnvelope { sequence, timestamp_ns, payload }
    }
}

impl<T: Clone> Clone for EventEnvelope<T> {
    fn clone(&self) -> (r: Self)
        ensures
            r.sequence == self.sequence,
            r.timestamp_ns == self.timestamp_ns,
            cloned::<T>(self.payload, r.payload),
    {
        EventEnvelope {
            sequence: self.sequence,
            timestamp_ns: self.timestamp_ns,
            payload: self.payload.clone(),
        }
    }
}

} // verus!
