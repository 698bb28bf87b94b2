//! A signed contract position.

use crate::execution::{Fill, Side};
use vstd::prelude::*;

verus! {

#[derive(Clone, Copy, Debug, PartialEq, Eq, Structural)]
pub struct Position {
    pub quantity: i64,
}

impl Default for Position {
    fn default() -> (r: Self)
        ensures
            r.quantity == 0,
    {
        Position { quantity: 0 }
    }
}

/// What a fill adds to a position: its count read as a signed integer, and for
/// a sale the opposite.
pub open spec fn delta(side: Side, fill: Fill) -> int {
    match side {
        Side::Buy => (fill.quantity as i64) as int,
        Side::Sell => -((fill.quantity as i64) as int),
    }
}

impl Position {
    pub fn apply(&mut self, side: Side, fill: Fill)
        requires
            i64::MIN <= delta(side, fill) <= i64::MAX,
            i64::MIN <= old(self).quantity + delta(side, fill) <= i64::MAX,
        ensures
            final(self).quantity == old(self).quantity + delta(side, fill),
    {
        let count: i64 = fill.quantity as i64;
        let change: i64 = match side {
            Side::Buy => count,
            Side::Sell => -count,
        };
        self.quantity = self.quantity + change;
    }
}

/// A purchase and a sale of the same fill cancel.
pub proof fn law_opposite_fills_cancel(position: Position, fill: Fill)
    ensures
        position.quantity + delta(Side::Buy, fill) + delta(Side::Sell, fill) == position.quantity,
{
}

} // verus!
