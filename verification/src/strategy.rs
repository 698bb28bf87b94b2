//! Threshold signals.

use crate::market::Price;
use vstd::prelude::*;

verus! {

#[derive(Clone, Copy, Debug, PartialEq, Eq, Structural)]
pub enum Signal {
    Buy,
    Sell,
    Hold,
}

/// The signal of a price against a threshold.
pub open spec fn signalled(price: Price, threshold: Price) -> Signal {
    if price@.value() > threshold@.value() {
        Signal::Buy
    } else if price@.value() < threshold@.value() {
        Signal::Sell
    } else {
        Signal::Hold
    }
}

/// Buys above a threshold, sells below it, holds at it.
pub fn threshold_signal(price: Price, threshold: Price) -> (r: Signal)
    ensures
        r == signalled(price, threshold),
{
    let p = price.value();
    let t = threshold.value();
    if t.is_less(p) {
        Signal::Buy
    } else if p.is_less(t) {
        Signal::Sell
    } else {
        Signal::Hold
    }
}

/// A price above a threshold is bought and one below it is sold; at the threshold
/// nothing is done.
pub proof fn law_prices_are_bought_above_a_threshold(price: Price, threshold: Price)
    ensures
        signalled(price, threshold) == Signal::Buy <==> threshold@.value() < price@.value(),
        signalled(price, threshold) == Signal::Sell <==> price@.value() < threshold@.value(),
        signalled(price, threshold) == Signal::Hold <==> price@.value() == threshold@.value(),
{
}

} // verus!
