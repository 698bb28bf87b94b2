//! What a stream of daily returns amounts to.

use super::daily::DailyReturn;
use super::fixed_point;
use crate::binary64::Binary64;
use crate::statistics;
use vstd::prelude::*;

verus! {

/// Trading days by which a year is counted.
pub const TRADING_DAYS_PER_YEAR: u64 = 252;

#[derive(Clone, Copy, Debug, PartialEq, Eq, Structural)]
pub struct FixedCapitalPerformance {
    pub days: usize,
    pub mean_daily_return: Binary64,
    /// The sample volatility.
    pub daily_volatility: Binary64,
    pub sharpe: Binary64,
    /// The equity that one unit has grown to, each return reinvested.
    pub ending_equity: Binary64,
    pub total_return: Binary64,
    pub max_drawdown: Binary64,
    pub nonzero_days: usize,
}

/// The portfolio returns of days.
pub open spec fn portfolio_returns(values: Seq<DailyReturn>) -> Seq<Binary64> {
    values.map_values(|value: DailyReturn| fixed_point::amount(value.portfolio_return_units))
}

/// Squared distances from a middle.
pub open spec fn squares(values: Seq<Binary64>, middle: Binary64) -> Seq<Binary64> {
    values.map_values(
        |value: Binary64| value.difference(middle).product(value.difference(middle)),
    )
}

pub open spec fn volatility(values: Seq<Binary64>) -> Binary64 {
    if values.len() == 1 {
        Binary64::of_int(0)
    } else {
        statistics::sum(squares(values, statistics::mean(values))).quotient(
            Binary64::of_int(values.len() - 1),
        ).root()
    }
}

/// The equity that one unit grows to.
pub open spec fn equity(values: Seq<Binary64>) -> Binary64
    decreases values.len(),
{
    if values.len() == 0 {
        Binary64::of_int(1)
    } else {
        equity(values.drop_last()).product(Binary64::of_int(1).total(values.last()))
    }
}

/// The highest equity on the way.
pub open spec fn peak(values: Seq<Binary64>) -> Binary64
    decreases values.len(),
{
    if values.len() == 0 {
        Binary64::of_int(1)
    } else {
        peak(values.drop_last()).greater(equity(values))
    }
}

/// The deepest fall below the highest equity before.
pub open spec fn drawdown(values: Seq<Binary64>) -> Binary64
    decreases values.len(),
{
    if values.len() == 0 {
        Binary64::of_int(0)
    } else {
        drawdown(values.drop_last()).lesser(
            equity(values).quotient(peak(values)).difference(Binary64::of_int(1)),
        )
    }
}

/// How many returns are not zero.
pub open spec fn nonzero(values: Seq<Binary64>) -> int
    decreases values.len(),
{
    if values.len() == 0 {
        0
    } else {
        nonzero(values.drop_last()) + if values.last().equals(Binary64::of_int(0)) {
            0int
        } else {
            1
        }
    }
}

/// The performance of a stream of returns.
pub open spec fn performance(values: Seq<Binary64>) -> FixedCapitalPerformance {
    let zero = Binary64::of_int(0);
    let mean = statistics::mean(values);
    let volatility = volatility(values);
    FixedCapitalPerformance {
        days: values.len() as usize,
        mean_daily_return: mean,
        daily_volatility: volatility,
        sharpe: if volatility.equals(zero) {
            zero
        } else {
            mean.quotient(volatility).product(
                Binary64::of_int(TRADING_DAYS_PER_YEAR as int).root(),
            )
        },
        ending_equity: equity(values),
        total_return: equity(values).difference(Binary64::of_int(1)),
        max_drawdown: drawdown(values),
        nonzero_days: nonzero(values) as usize,
    }
}

pub fn evaluate(values: &[DailyReturn]) -> (r: FixedCapitalPerformance)
    requires
        values@.len() > 0,
    ensures
        r == performance(portfolio_returns(values@)),
{
    let ghost all = portfolio_returns(values@);
    let zero: Binary64 = Binary64::from_u64(0);
    let one: Binary64 = Binary64::from_u64(1);
    let mut list: Vec<Binary64> = Vec::new();
    let mut growth: Binary64 = one;
    let mut high: Binary64 = one;
    let mut max_drawdown: Binary64 = zero;
    let mut nonzero_days: usize = 0;
    let mut i: usize = 0;
    assert(all.take(0) =~= Seq::<Binary64>::empty());
    while i < values.len()
        invariant
            i <= values@.len(),
            all == portfolio_returns(values@),
            zero == Binary64::of_int(0),
            one == Binary64::of_int(1),
            list@ == all.take(i as int),
            growth == equity(all.take(i as int)),
            high == peak(all.take(i as int)),
            max_drawdown == drawdown(all.take(i as int)),
            nonzero_days == nonzero(all.take(i as int)),
            nonzero_days <= i,
        decreases values@.len() - i,
    {
        let value: Binary64 = values[i].portfolio_return();
        proof {
            assert(all.take(i + 1).drop_last() =~= all.take(i as int));
            assert(all.take(i + 1) =~= all.take(i as int).push(value));
        }
        list.push(value);
        growth = growth.times(one.plus(value));
        high = high.max(growth);
        max_drawdown = max_drawdown.min(growth.over(high).minus(one));
        if !value.is_equal(zero) {
            nonzero_days = nonzero_days + 1;
        }
        i = i + 1;
    }
    assert(all.take(all.len() as int) =~= all);
    let mean: Binary64 = statistics::average(list.as_slice(), 0);
    assert(all.skip(0) =~= all);
    let daily_volatility: Binary64 = if list.len() == 1 {
        zero
    } else {
        let squared: Vec<Binary64> = squared_distances(&list, mean);
        statistics::total(squared.as_slice(), 0).over(
            Binary64::from_u64((list.len() - 1) as u64),
        ).square_root()
    };
    assert(squares(all, mean).skip(0) =~= squares(all, mean));
    FixedCapitalPerformance {
        days: values.len(),
        mean_daily_return: mean,
        daily_volatility,
        sharpe: if daily_volatility.is_equal(zero) {
            zero
        } else {
            mean.over(daily_volatility).times(
                Binary64::from_u64(TRADING_DAYS_PER_YEAR).square_root(),
            )
        },
        ending_equity: growth,
        total_return: growth.minus(one),
        max_drawdown,
        nonzero_days,
    }
}

fn squared_distances(values: &Vec<Binary64>, middle: Binary64) -> (r: Vec<Binary64>)
    ensures
        r@ == squares(values@, middle),
{
    let mut out: Vec<Binary64> = Vec::new();
    let mut i: usize = 0;
    while i < values.len()
        invariant
            i <= values@.len(),
            out@ == squares(values@.take(i as int), middle),
        decreases values@.len() - i,
    {
        let distance: Binary64 = values[i].minus(middle);
        out.push(distance.times(distance));
        assert(out@ =~= squares(values@.take(i + 1), middle));
        i = i + 1;
    }
    assert(values@.take(values@.len() as int) =~= values@);
    out
}

} // verus!
