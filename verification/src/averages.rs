//! What sums and means are in exact numbers, and what a moving-average run does by
//! them, bar by bar.

use crate::backtest;
use crate::backtest::DualMovingAverage;
use crate::binary64::Binary64;
use crate::market::Bar;
use crate::rounding;
use crate::rounding::{distance, one};
use crate::statistics;
use vstd::prelude::*;

verus! {

/// The sum of the exact values, in units.
pub open spec fn exact_sum(values: Seq<Binary64>) -> int
    decreases values.len(),
{
    if values.len() == 0 {
        0
    } else {
        exact_sum(values.drop_last()) + values.last().value()
    }
}

/// Whether a number of units is held by some value.
pub open spec fn is_held(n: int) -> bool {
    exists|x: Binary64| #[trigger] x.value() == n && x.finite()
}

/// Whether a number of units, divided, is held by some value.
pub open spec fn is_held_over(n: int, d: int) -> bool {
    exists|x: Binary64| x.finite() && #[trigger] x.value() * d == n
}

/// Whether values are finite and no step of their sum is rounded.
pub open spec fn fits(values: Seq<Binary64>) -> bool {
    &&& forall|i: int| 0 <= i < values.len() ==> (#[trigger] values[i]).finite()
    &&& forall|k: int| 0 <= k <= values.len() ==> is_held(exact_sum(#[trigger] values.take(k)))
}

proof fn lemma_zero()
    ensures
        Binary64::of_int(0).finite(),
        Binary64::of_int(0).value() == 0,
        Binary64::of_int(1).finite(),
        Binary64::of_int(1).value() == one(),
        one() > 0,
{
    rounding::law_integers_are_exact(0);
    rounding::law_integers_are_exact(1);
    rounding::lemma_operations(Binary64::of_int(0), Binary64::of_int(0));
    assert(0 * one() == 0 && 1 * one() == one());
}

/// Where no step is rounded, a sum is the exact sum of all its values.
pub proof fn law_sums_count_every_value(values: Seq<Binary64>)
    requires
        fits(values),
    ensures
        statistics::sum(values).finite(),
        statistics::sum(values).value() == exact_sum(values),
    decreases values.len(),
{
    lemma_zero();
    if values.len() > 0 {
        let fewer = values.drop_last();
        assert forall|i: int| 0 <= i < fewer.len() implies (#[trigger] fewer[i]).finite() by {
            assert(fewer[i] == values[i]);
        }
        assert forall|k: int| 0 <= k <= fewer.len() implies is_held(
            exact_sum(#[trigger] fewer.take(k)),
        ) by {
            assert(fewer.take(k) =~= values.take(k));
        }
        law_sums_count_every_value(fewer);
        assert(values.take(values.len() as int) =~= values);
        assert(is_held(exact_sum(values.take(values.len() as int))));
        let x = choose|x: Binary64| #[trigger] x.value() == exact_sum(values) && x.finite();
        assert(values[values.len() - 1].finite());
        rounding::law_sums_are_nearest(statistics::sum(fewer), values.last(), x);
    }
}

/// A mean is as near as any value to the exact sum of all the values over their
/// number, and is that quotient itself where some value is.
pub proof fn law_means_share_the_sum(values: Seq<Binary64>, x: Binary64)
    requires
        fits(values),
        0 < values.len() <= 0x20_0000_0000_0000,
        x.finite(),
    ensures
        ({
            let n = values.len() as int;
            let mean = statistics::mean(values).value();
            &&& distance(mean * n, exact_sum(values)) <= distance(
                x.value() * n,
                exact_sum(values),
            )
            &&& x.value() * n == exact_sum(values) ==> mean == x.value()
                && statistics::mean(values).finite()
        }),
{
    let n = values.len() as int;
    let s = exact_sum(values);
    let o = one();
    let m = statistics::mean(values).value();
    lemma_zero();
    law_sums_count_every_value(values);
    rounding::law_integers_are_exact(n);
    let d = Binary64::of_int(n);
    assert(n * o > 0) by (nonlinear_arith)
        requires
            n > 0,
            o > 0,
    ;
    rounding::law_quotients_are_nearest(statistics::sum(values), d, x);
    assert(m * (n * o) == (m * n) * o) by (nonlinear_arith);
    assert(x.value() * (n * o) == (x.value() * n) * o) by (nonlinear_arith);
    lemma_distance(m * n, s, o);
    lemma_distance(x.value() * n, s, o);
    if distance(x.value() * n, s) < distance(m * n, s) {
        assert(distance(x.value() * n, s) * o < distance(m * n, s) * o) by (nonlinear_arith)
            requires
                distance(x.value() * n, s) < distance(m * n, s),
                o > 0,
        ;
    }
}

pub proof fn lemma_distance(a: int, b: int, o: int)
    requires
        o > 0,
    ensures
        distance(a * o, b * o) == distance(a, b) * o,
{
    assert(a * o - b * o == (a - b) * o) by (nonlinear_arith);
    let e = a - b;
    assert(e < 0 ==> e * o < 0 && -(e * o) == (-e) * o) by (nonlinear_arith)
        requires
            o > 0,
    ;
    assert(e >= 0 ==> e * o >= 0) by (nonlinear_arith)
        requires
            o > 0,
    ;
}

/// Every value takes part in a mean: where one is raised by some amount, the mean
/// is raised by that amount over the number of values.
pub proof fn law_every_value_moves_the_mean(
    values: Seq<Binary64>,
    at: int,
    raised: Binary64,
    x: Binary64,
    y: Binary64,
)
    requires
        0 <= at < values.len() <= 0x20_0000_0000_0000,
        fits(values),
        fits(values.update(at, raised)),
        x.finite(),
        y.finite(),
        x.value() * values.len() == exact_sum(values),
        y.value() * values.len() == exact_sum(values.update(at, raised)),
    ensures
        (statistics::mean(values.update(at, raised)).value() - statistics::mean(values).value())
            * values.len() == raised.value() - values[at].value(),
{
    law_means_share_the_sum(values, x);
    law_means_share_the_sum(values.update(at, raised), y);
    lemma_sum_update(values, at, raised);
    let n = values.len() as int;
    assert((y.value() - x.value()) * n == y.value() * n - x.value() * n) by (nonlinear_arith);
}

proof fn lemma_sum_update(values: Seq<Binary64>, at: int, raised: Binary64)
    requires
        0 <= at < values.len(),
    ensures
        exact_sum(values.update(at, raised)) == exact_sum(values) + raised.value()
            - values[at].value(),
    decreases values.len(),
{
    let updated = values.update(at, raised);
    if at < values.len() - 1 {
        assert(updated.drop_last() =~= values.drop_last().update(at, raised));
        lemma_sum_update(values.drop_last(), at, raised);
    } else {
        assert(updated.drop_last() =~= values.drop_last());
    }
}

/// Whether a positive value is at most another.
pub open spec fn is_raised(x: Binary64, y: Binary64) -> bool {
    x.finite() && y.finite() && 0 < x.value() <= y.value()
}

/// Prices never lower a mean by rising: where each of some positive values is at
/// most another, so are their sums and their means, whatever is rounded.
pub proof fn law_means_rise_with_their_values(a: Seq<Binary64>, b: Seq<Binary64>)
    requires
        a.len() == b.len(),
        0 < a.len() <= 0x20_0000_0000_0000,
        forall|i: int|
            0 <= i < a.len() ==> #[trigger] is_raised(a[i], b[i]),
    ensures
        statistics::mean(a).value() <= statistics::mean(b).value(),
        !statistics::mean(a).nan(),
        !statistics::mean(b).nan(),
{
    let n = a.len() as int;
    let d = Binary64::of_int(n);
    lemma_zero();
    lemma_sums_rise(a, b);
    rounding::law_integers_are_exact(n);
    let o = one();
    assert(n * o > 0) by (nonlinear_arith)
        requires
            n > 0,
            o > 0,
    ;
    rounding::lemma_quotients_ordered(statistics::sum(a), statistics::sum(b), d);
}

proof fn lemma_sums_rise(a: Seq<Binary64>, b: Seq<Binary64>)
    requires
        a.len() == b.len(),
        forall|i: int|
            0 <= i < a.len() ==> #[trigger] is_raised(a[i], b[i]),
    ensures
        0 <= statistics::sum(a).value() <= statistics::sum(b).value(),
        !statistics::sum(a).nan(),
        !statistics::sum(b).nan(),
    decreases a.len(),
{
    lemma_zero();
    if a.len() > 0 {
        let x = a.drop_last();
        let y = b.drop_last();
        assert forall|i: int| 0 <= i < x.len() implies #[trigger] is_raised(
            x[i],
            y[i],
        ) by {
            assert(is_raised(a[i], b[i]));
        }
        lemma_sums_rise(x, y);
        let last = a.len() - 1;
        assert(is_raised(a[last], b[last]));
        rounding::lemma_sums_ordered(
            statistics::sum(x),
            a[last],
            statistics::sum(y),
            b[last],
        );
    }
}

/// The newest closes, as many as a window takes.
pub open spec fn newest(bars: Seq<Bar>, window: int) -> Seq<Binary64> {
    Seq::new(window as nat, |i: int| bars[bars.len() - window + i].close@)
}

/// Whether the mean of the newest closes has an exact value.
pub open spec fn has_mean(bars: Seq<Bar>, window: int) -> bool {
    fits(newest(bars, window)) && is_held_over(exact_sum(newest(bars, window)), window)
}

/// Whether the mean of the fast window lies above that of the slow one.
pub open spec fn rises(bars: Seq<Bar>, strategy: DualMovingAverage) -> bool {
    exact_sum(newest(bars, strategy.fast_window as int)) * strategy.slow_window > exact_sum(
        newest(bars, strategy.slow_window as int),
    ) * strategy.fast_window
}

proof fn lemma_newest(bars: Seq<Bar>, window: int)
    requires
        0 <= window <= bars.len(),
    ensures
        newest(bars, window) == backtest::closes(bars).skip(bars.len() - window),
{
    assert(newest(bars, window) =~= backtest::closes(bars).skip(bars.len() - window));
}

/// After bars on which both means have exact values, the next bar changes the
/// position exactly where it is flat and the mean of the fast window lies above
/// that of the slow one, which are bought, or where it is long and that is not so,
/// which are sold. Before the slow window is full nothing is done. A fill is one
/// more; without one, position and cash stay.
pub proof fn law_the_averages_decide_the_next_fill(
    bars: Seq<Bar>,
    next: Bar,
    strategy: DualMovingAverage,
    quantity: u64,
)
    requires
        quantity > 0,
        0 < strategy.fast_window <= strategy.slow_window <= 0x20_0000_0000_0000,
        bars.len() < 0x1fff_ffff,
        bars.len() >= strategy.slow_window ==> has_mean(bars, strategy.fast_window as int)
            && has_mean(bars, strategy.slow_window as int),
    ensures
        ({
            let a = backtest::outcome(bars, strategy, quantity);
            let b = backtest::outcome(bars.push(next), strategy, quantity);
            let full = bars.len() >= strategy.slow_window;
            let bought = full && a.ending_position == 0 && rises(bars, strategy);
            let sold = full && a.ending_position > 0 && !rises(bars, strategy);
            &&& a.bars == bars.len()
            &&& b.ending_position == if bought {
                quantity
            } else if sold {
                0
            } else {
                a.ending_position
            }
            &&& b.fills == a.fills + if bought || sold {
                1int
            } else {
                0
            }
            &&& !bought && !sold ==> b.realized_pnl == a.realized_pnl
        }),
{
    let more = bars.push(next);
    assert(more.drop_last() =~= bars);
    backtest::law_position_is_flat_or_full(bars, strategy, quantity);
    backtest::law_position_is_flat_or_full(more, strategy, quantity);
    let p = backtest::progress(bars, strategy, quantity);
    let f = strategy.fast_window as int;
    let s = strategy.slow_window as int;
    if bars.len() < s {
        backtest::law_no_order_before_the_slow_window(bars, strategy, quantity);
    } else {
        lemma_newest(bars, f);
        lemma_newest(bars, s);
        let sf = exact_sum(newest(bars, f));
        let ss = exact_sum(newest(bars, s));
        let x = choose|x: Binary64| x.finite() && #[trigger] x.value() * f == sf;
        let y = choose|y: Binary64| y.finite() && #[trigger] y.value() * s == ss;
        law_means_share_the_sum(newest(bars, f), x);
        law_means_share_the_sum(newest(bars, s), y);
        let vx = x.value();
        let vy = y.value();
        assert(sf * s == vx * (f * s)) by (nonlinear_arith)
            requires
                sf == vx * f,
        ;
        assert(ss * f == vy * (f * s)) by (nonlinear_arith)
            requires
                ss == vy * s,
        ;
        let k = f * s;
        assert(k > 0) by (nonlinear_arith)
            requires
                k == f * s,
                f > 0,
                s > 0,
        ;
        assert(vx > vy <==> vx * k > vy * k) by (nonlinear_arith)
            requires
                k > 0,
        ;
    }
}

/// A fill pays for what it moves: cash falls by the price of what was bought and
/// rises by the price of what was sold, at the open of the bar.
pub proof fn law_fills_are_paid_at_the_open(
    bars: Seq<Bar>,
    next: Bar,
    strategy: DualMovingAverage,
    quantity: u64,
)
    requires
        0 < quantity <= 0x20_0000_0000_0000,
        next.open@.finite(),
    ensures
        ({
            let a = backtest::outcome(bars, strategy, quantity);
            let b = backtest::outcome(bars.push(next), strategy, quantity);
            let paid = (b.ending_position - a.ending_position) * next.open@.value();
            a.realized_pnl.finite() && b.ending_position != a.ending_position && is_held(paid)
                && is_held(a.realized_pnl.value() - paid) ==> b.realized_pnl.finite()
                && b.realized_pnl.value() == a.realized_pnl.value() - paid
        }),
{
    let more = bars.push(next);
    assert(more.drop_last() =~= bars);
    backtest::law_position_is_flat_or_full(bars, strategy, quantity);
    backtest::law_position_is_flat_or_full(more, strategy, quantity);
    let a = backtest::outcome(bars, strategy, quantity);
    let b = backtest::outcome(more, strategy, quantity);
    let open = next.open@.value();
    let change = b.ending_position - a.ending_position;
    let paid = change * open;
    if a.realized_pnl.finite() && change != 0 && is_held(paid) && is_held(
        a.realized_pnl.value() - paid,
    ) {
        let q = quantity as int;
        let w = Binary64::of_int(q).product(next.open@);
        let x = choose|x: Binary64| #[trigger] x.value() == paid && x.finite();
        let z = choose|z: Binary64| #[trigger]
            z.value() == a.realized_pnl.value() - paid && z.finite();
        let value = if change < 0 {
            x.negation()
        } else {
            x
        };
        rounding::lemma_negation(x);
        assert(change == q || change == -q);
        assert(value.value() == q * open) by (nonlinear_arith)
            requires
                change == q && value.value() == paid || change == -q && value.value() == -paid,
                paid == change * open,
        ;
        rounding::law_integers_are_exact(q);
        lemma_worth(q, next.open@, value);
        rounding::lemma_same(w, value);
        rounding::law_sums_are_nearest(a.realized_pnl, w, z);
        rounding::law_differences_are_nearest(a.realized_pnl, w, z);
    }
}

/// A number of pieces at a price is worth their product.
proof fn lemma_worth(pieces: int, price: Binary64, x: Binary64)
    requires
        0 <= pieces <= 0x20_0000_0000_0000,
        price.finite(),
        x.finite(),
        x.value() == pieces * price.value(),
    ensures
        Binary64::of_int(pieces).product(price).value() == x.value(),
        Binary64::of_int(pieces).product(price).finite(),
{
    let o = one();
    rounding::law_integers_are_exact(pieces);
    assert(x.value() * o == (pieces * o) * price.value()) by (nonlinear_arith)
        requires
            x.value() == pieces * price.value(),
    ;
    rounding::law_products_are_nearest(Binary64::of_int(pieces), price, x);
}

/// A run is worth its cash and what it holds at the last close.
pub proof fn law_holdings_are_marked_at_the_close(
    bars: Seq<Bar>,
    strategy: DualMovingAverage,
    quantity: u64,
)
    requires
        0 < quantity <= 0x20_0000_0000_0000,
        bars.len() > 0,
        bars.last().close@.finite(),
    ensures
        ({
            let a = backtest::outcome(bars, strategy, quantity);
            let held = a.ending_position * bars.last().close@.value();
            a.realized_pnl.finite() && is_held(held) && is_held(a.realized_pnl.value() + held)
                ==> a.mark_to_market_pnl.finite() && a.mark_to_market_pnl.value()
                == a.realized_pnl.value() + held
        }),
{
    backtest::law_position_is_flat_or_full(bars, strategy, quantity);
    let a = backtest::outcome(bars, strategy, quantity);
    let close = bars.last().close@;
    let held = a.ending_position * close.value();
    if a.realized_pnl.finite() && is_held(held) && is_held(a.realized_pnl.value() + held) {
        let x = choose|x: Binary64| #[trigger] x.value() == held && x.finite();
        let z = choose|z: Binary64| #[trigger]
            z.value() == a.realized_pnl.value() + held && z.finite();
        lemma_worth(a.ending_position as int, close, x);
        rounding::law_sums_are_nearest(
            a.realized_pnl,
            Binary64::of_int(a.ending_position as int).product(close),
            z,
        );
    }
}

/// A run on no bars has done nothing.
pub proof fn law_a_run_starts_flat(strategy: DualMovingAverage, quantity: u64)
    ensures
        ({
            let a = backtest::outcome(Seq::empty(), strategy, quantity);
            &&& a.bars == 0 && a.fills == 0 && a.ending_position == 0
            &&& a.realized_pnl.value() == 0 && a.realized_pnl.finite()
            &&& a.mark_to_market_pnl == a.realized_pnl
        }),
{
    lemma_zero();
}

} // verus!
