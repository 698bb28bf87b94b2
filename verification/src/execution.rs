//! Fills at the next open.

use crate::market::PriceTicks;
use vstd::prelude::*;

verus! {

#[derive(Clone, Copy, Debug, PartialEq, Eq, Structural)]
pub enum Side {
    Buy,
    Sell,
}

#[derive(Clone, Copy, Debug, PartialEq, Eq, Structural)]
pub struct Order {
    pub id: u64,
    pub created_sequence: u64,
    pub side: Side,
    pub quantity: u64,
}

#[derive(Clone, Copy, Debug, PartialEq, Eq, Structural)]
pub struct Fill {
    pub order_id: u64,
    pub sequence: u64,
    pub price: PriceTicks,
    pub quantity: u64,
}

#[derive(Clone, Copy, Debug, PartialEq, Eq, Structural)]
pub enum ExecutionError {
    EmptyOrder,
    NonFutureOpen { created_sequence: u64, open_sequence: u64 },
}

/// The fill of an order at an open, or why there is none.
pub open spec fn next_open(order: Order, open_sequence: u64, open_price: PriceTicks) -> Result<
    Fill,
    ExecutionError,
> {
    if order.quantity == 0 {
        Err(ExecutionError::EmptyOrder)
    } else if open_sequence <= order.created_sequence {
        Err(
            ExecutionError::NonFutureOpen {
                created_sequence: order.created_sequence,
                open_sequence,
            },
        )
    } else {
        Ok(
            Fill {
                order_id: order.id,
                sequence: open_sequence,
                price: open_price,
                quantity: order.quantity,
            },
        )
    }
}

/// Fills an order at an open that comes after it in the event sequence.
pub fn fill_at_next_open(order: Order, open_sequence: u64, open_price: PriceTicks) -> (r: Result<
    Fill,
    ExecutionError,
>)
    ensures
        r == next_open(order, open_sequence, open_price),
{
    if order.quantity == 0 {
        return Err(ExecutionError::EmptyOrder);
    }
    if open_sequence <= order.created_sequence {
        return Err(
            ExecutionError::NonFutureOpen {
                created_sequence: order.created_sequence,
                open_sequence,
            },
        );
    }
    Ok(
        Fill {
            order_id: order.id,
            sequence: open_sequence,
            price: open_price,
            quantity: order.quantity,
        },
    )
}

} // verus!
