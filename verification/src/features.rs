//! Price features.

use crate::market::PriceTicks;
use vstd::prelude::*;

verus! {

/// The sum of prices.
pub open spec fn sum(values: Seq<PriceTicks>) -> int
    decreases values.len(),
{
    if values.len() == 0 {
        0
    } else {
        sum(values.drop_last()) + values.last()
    }
}

/// The last `length` prices.
pub open spec fn latest(values: Seq<PriceTicks>, length: int) -> Seq<PriceTicks> {
    values.skip(values.len() - length)
}

/// The average of the last `length` prices, rounded down.
pub open spec fn moving_average(values: Seq<PriceTicks>, length: int) -> int {
    sum(latest(values, length)) / length
}

/// Every one of the last prices takes part in a moving average, and none before them: the
/// average is what their sum holds as often as there are prices.
pub proof fn law_the_latest_prices_are_averaged(
    values: Seq<PriceTicks>,
    length: int,
    at: int,
    other: PriceTicks,
)
    requires
        0 < length <= values.len(),
        0 <= at < values.len(),
    ensures
        moving_average(values, length) * length <= sum(latest(values, length)) < (moving_average(
            values,
            length,
        ) + 1) * length,
        at < values.len() - length ==> moving_average(values.update(at, other), length)
            == moving_average(values, length),
        at >= values.len() - length ==> sum(latest(values.update(at, other), length)) - sum(
            latest(values, length),
        ) == other - values[at],
        latest(values, length).len() == length,
        sum(Seq::empty()) == 0,
{
    let s = sum(latest(values, length));
    vstd::arithmetic::div_mod::lemma_fundamental_div_mod(s, length);
    vstd::arithmetic::div_mod::lemma_mod_bound(s, length);
    let q = s / length;
    assert((q + 1) * length == length * q + length) by (nonlinear_arith);
    assert(q * length == length * q) by (nonlinear_arith);
    let start = values.len() - length;
    let updated = values.update(at, other);
    if at < start {
        assert(latest(updated, length) =~= latest(values, length));
    } else {
        assert(latest(updated, length) =~= latest(values, length).update(at - start, other));
        lemma_sum_update(latest(values, length), at - start, other);
    }
}

proof fn lemma_sum_update(values: Seq<PriceTicks>, at: int, other: PriceTicks)
    requires
        0 <= at < values.len(),
    ensures
        sum(values.update(at, other)) - sum(values) == other - values[at],
    decreases values.len(),
{
    let updated = values.update(at, other);
    if at < values.len() - 1 {
        assert(updated.drop_last() =~= values.drop_last().update(at, other));
        lemma_sum_update(values.drop_last(), at, other);
    } else {
        assert(updated.drop_last() =~= values.drop_last());
    }
}

proof fn lemma_sum_grows(values: Seq<PriceTicks>, i: int)
    requires
        0 <= i <= values.len(),
    ensures
        0 <= sum(values.take(i)) <= sum(values),
    decreases values.len() - i,
{
    if i < values.len() {
        lemma_sum_grows(values, i + 1);
        assert(values.take(i + 1).drop_last() =~= values.take(i));
    } else {
        assert(values.take(i) =~= values);
    }
    if i > 0 {
        lemma_sum_natural(values.take(i));
    }
}

proof fn lemma_sum_natural(values: Seq<PriceTicks>)
    ensures
        sum(values) >= 0,
    decreases values.len(),
{
    if values.len() > 0 {
        lemma_sum_natural(values.drop_last());
    }
}

/// The average of the latest `length` prices, in whole ticks, rounded down.
pub fn simple_moving_average(values: &[PriceTicks], length: usize) -> (r: Option<PriceTicks>)
    requires
        length > 0,
        length <= values@.len() ==> sum(latest(values@, length as int)) <= u64::MAX,
    ensures
        match r {
            Some(average) => length <= values@.len() && average == moving_average(
                values@,
                length as int,
            ),
            None => length > values@.len(),
        },
{
    if length > values.len() {
        return None;
    }
    let count: usize = values.len();
    let start: usize = count - length;
    let ghost window = latest(values@, length as int);
    let mut total: u64 = 0;
    let mut i: usize = 0;
    assert(window.take(0) =~= Seq::<PriceTicks>::empty());
    while i < length
        invariant
            0 < length <= values@.len(),
            count == values@.len(),
            start == count - length,
            i <= length,
            window == latest(values@, length as int),
            total == sum(window.take(i as int)),
            sum(window) <= u64::MAX,
        decreases length - i,
    {
        proof {
            lemma_sum_grows(window, i + 1);
            assert(window.take(i + 1).drop_last() =~= window.take(i as int));
        }
        total = total + values[start + i];
        i = i + 1;
    }
    assert(window.take(length as int) =~= window);
    Some(total / (length as u64))
}

} // verus!
