//! What the figures of a stream of daily returns mean in exact numbers.

use super::daily::DailyReturn;
use super::fixed_point;
use super::performance;
use super::performance::FixedCapitalPerformance;
use crate::averages;
use crate::averages::{exact_sum, fits, is_held};
use crate::binary64::Binary64;
use crate::rounding;
use crate::rounding::{distance, one};
use crate::statistics;
use vstd::prelude::*;

verus! {

/// The performance of returns.
pub open spec fn of(values: Seq<Binary64>) -> FixedCapitalPerformance {
    performance::performance(values)
}

/// The equity after the first days.
pub open spec fn equity_after(values: Seq<Binary64>, days: int) -> Binary64 {
    of(values.take(days)).ending_equity
}

/// Whether the equity is a number on every day.
pub open spec fn stays_finite(values: Seq<Binary64>) -> bool {
    forall|k: int| 0 <= k <= values.len() ==> (#[trigger] equity_after(values, k)).finite()
}

/// What is lost or won from one day to another, of the equity on the first.
pub open spec fn change(values: Seq<Binary64>, from: int, to: int) -> Binary64 {
    equity_after(values, to).quotient(equity_after(values, from)).difference(
        Binary64::of_int(1),
    )
}

proof fn lemma_one()
    ensures
        Binary64::of_int(1).finite(),
        Binary64::of_int(1).value() == one(),
        Binary64::of_int(0).finite(),
        Binary64::of_int(0).value() == 0,
        one() > 0,
{
    rounding::law_integers_are_exact(1);
    rounding::law_integers_are_exact(0);
    rounding::lemma_operations(Binary64::of_int(0), Binary64::of_int(0));
    assert(1 * one() == one() && 0 * one() == 0);
}

/// Equity starts at one.
pub proof fn law_equity_starts_at_one(values: Seq<Binary64>)
    ensures
        equity_after(values, 0) == Binary64::of_int(1),
        equity_after(values, 0).value() == one(),
{
    lemma_one();
    assert(values.take(0) =~= Seq::<Binary64>::empty());
}

/// Returns compound: a day multiplies the equity before it by one and the return of
/// the day, exactly where that has a value.
pub proof fn law_returns_compound(values: Seq<Binary64>, return_of_day: Binary64, x: Binary64)
    requires
        of(values).ending_equity.finite(),
        return_of_day.finite(),
        is_held(one() + return_of_day.value()),
        x.finite(),
        x.value() * one() == of(values).ending_equity.value() * (one() + return_of_day.value()),
    ensures
        of(values.push(return_of_day)).ending_equity.finite(),
        of(values.push(return_of_day)).ending_equity.value() == x.value(),
{
    let more = values.push(return_of_day);
    assert(more.drop_last() =~= values);
    lemma_one();
    let unit = Binary64::of_int(1);
    let f = choose|f: Binary64| #[trigger]
        f.value() == one() + return_of_day.value() && f.finite();
    rounding::law_sums_are_nearest(unit, return_of_day, f);
    rounding::law_products_are_nearest(
        of(values).ending_equity,
        unit.total(return_of_day),
        x,
    );
}

/// The total return is what equity has beyond one.
pub proof fn law_total_return_is_growth(values: Seq<Binary64>, x: Binary64)
    requires
        of(values).ending_equity.finite(),
        x.finite(),
    ensures
        ({
            let gained = of(values).ending_equity.value() - one();
            let total = of(values).total_return;
            &&& distance(total.value(), gained) <= distance(x.value(), gained)
            &&& x.value() == gained ==> total.finite() && total.value() == gained
        }),
{
    lemma_one();
    rounding::law_differences_are_nearest(
        of(values).ending_equity,
        Binary64::of_int(1),
        x,
    );
}

/// The peak is the equity of some day, and no equity up to now lies above it.
proof fn lemma_peak(values: Seq<Binary64>, days: int) -> (at: int)
    requires
        stays_finite(values),
        0 <= days <= values.len(),
    ensures
        0 <= at <= days,
        performance::peak(values.take(days)) == equity_after(values, at),
        performance::peak(values.take(days)).value() >= one(),
        forall|i: int|
            0 <= i <= days ==> (#[trigger] equity_after(values, i)).value()
                <= performance::peak(values.take(days)).value(),
    decreases days,
{
    law_equity_starts_at_one(values);
    assert(values.take(0) =~= Seq::<Binary64>::empty());
    if days == 0 {
        0
    } else {
        let before = lemma_peak(values, days - 1);
        assert(values.take(days).drop_last() =~= values.take(days - 1));
        let high = performance::peak(values.take(days - 1));
        assert(equity_after(values, before).finite());
        assert(equity_after(values, days).finite());
        rounding::law_lesser_and_greater(high, equity_after(values, days));
        if high.greater(equity_after(values, days)) == high {
            before
        } else {
            days
        }
    }
}

/// What a day lies below the peak.
spec fn below(values: Seq<Binary64>, days: int) -> Binary64 {
    equity_after(values, days).quotient(performance::peak(values.take(days))).difference(
        Binary64::of_int(1),
    )
}

/// The fall below the peak is a number.
proof fn lemma_below(values: Seq<Binary64>, days: int)
    requires
        stays_finite(values),
        0 <= days <= values.len(),
    ensures
        below(values, days).finite() || below(values, days).infinite(),
{
    let at = lemma_peak(values, days);
    lemma_one();
    let e = equity_after(values, days);
    let p = performance::peak(values.take(days));
    assert(e.finite());
    assert(equity_after(values, at).finite());
    rounding::lemma_operations(e, p);
    let q = e.quotient(p);
    if q.finite() {
        rounding::lemma_operations(q, Binary64::of_int(1));
    } else {
        rounding::lemma_negation(Binary64::of_int(1));
    }
}

proof fn lemma_drawdown(values: Seq<Binary64>, days: int) -> (at: int)
    requires
        stays_finite(values),
        0 <= days <= values.len(),
    ensures
        0 <= at <= days,
        !performance::drawdown(values.take(days)).nan(),
        at == 0 ==> performance::drawdown(values.take(days)).value() == 0,
        at > 0 ==> performance::drawdown(values.take(days)) == below(values, at),
        performance::drawdown(values.take(days)).value() <= 0,
        forall|j: int|
            1 <= j <= days ==> performance::drawdown(values.take(days)).value()
                <= (#[trigger] below(values, j)).value(),
    decreases days,
{
    lemma_one();
    assert(values.take(0) =~= Seq::<Binary64>::empty());
    if days == 0 {
        0
    } else {
        let before = lemma_drawdown(values, days - 1);
        assert(values.take(days).drop_last() =~= values.take(days - 1));
        let d = performance::drawdown(values.take(days - 1));
        lemma_below(values, days);
        rounding::law_lesser_and_greater(d, below(values, days));
        assert(performance::drawdown(values.take(days)) == d.lesser(below(values, days)));
        if d.lesser(below(values, days)) == d {
            before
        } else {
            days
        }
    }
}

/// The maximum drawdown is the worst that could have happened between two days, the
/// start among them: it is the change of equity from some day to the same or a later
/// one, and no such change lies below it.
pub proof fn law_drawdown_is_the_worst_fall(values: Seq<Binary64>)
    requires
        stays_finite(values),
    ensures
        of(values).max_drawdown.value() <= 0,
        forall|i: int, j: int|
            0 <= i <= j <= values.len() && equity_after(values, i).value() > 0 && equity_after(
                values,
                j,
            ).value() >= 0 ==> of(values).max_drawdown.value() <= (#[trigger] change(
                values,
                i,
                j,
            )).value(),
        exists|i: int, j: int|
            0 <= i <= j <= values.len() && of(values).max_drawdown.value() == (#[trigger] change(
                values,
                i,
                j,
            )).value(),
{
    let n = values.len() as int;
    assert(values.take(n) =~= values);
    lemma_one();
    law_equity_starts_at_one(values);
    let at = lemma_drawdown(values, n);
    let d = of(values).max_drawdown;
    assert(d == performance::drawdown(values.take(n)));
    assert(change(values, 0, 0).value() == 0) by {
        lemma_same_day(values, 0);
    }
    if at > 0 {
        let top = lemma_peak(values, at);
        assert(change(values, top, at) == below(values, at));
    }
    assert forall|i: int, j: int|
        0 <= i <= j <= values.len() && equity_after(values, i).value() > 0 && equity_after(
            values,
            j,
        ).value() >= 0 implies d.value() <= (#[trigger] change(values, i, j)).value() by {
        if j == 0 {
        } else {
            lemma_fall(values, i, j);
            assert(d.value() <= below(values, j).value());
        }
    }
}

/// Nothing changes within a day.
proof fn lemma_same_day(values: Seq<Binary64>, day: int)
    requires
        equity_after(values, day).finite(),
        equity_after(values, day).value() > 0,
    ensures
        change(values, day, day).value() == 0,
{
    let e = equity_after(values, day);
    let unit = Binary64::of_int(1);
    lemma_one();
    let o = one();
    assert(unit.value() * e.value() == e.value() * o) by (nonlinear_arith)
        requires
            unit.value() == o,
    ;
    rounding::law_quotients_are_nearest(e, e, unit);
    rounding::law_differences_are_nearest(e.quotient(e), unit, Binary64::of_int(0));
}

/// A fall below the peak is at least as deep as one below any day before.
proof fn lemma_fall(values: Seq<Binary64>, i: int, j: int)
    requires
        stays_finite(values),
        0 <= i <= j <= values.len(),
        equity_after(values, i).value() > 0,
        equity_after(values, j).value() >= 0,
    ensures
        below(values, j).value() <= change(values, i, j).value(),
{
    let top = lemma_peak(values, j);
    lemma_one();
    lemma_below(values, j);
    let e = equity_after(values, j);
    let p = performance::peak(values.take(j));
    let b = equity_after(values, i);
    let unit = Binary64::of_int(1);
    assert(e.finite() && b.finite());
    assert(equity_after(values, top).finite());
    rounding::lemma_operations(e, p);
    rounding::lemma_operations(e, b);
    let n = e.value() * one();
    let o = one();
    let bv = b.value();
    let pv = p.value();
    assert(n >= 0) by (nonlinear_arith)
        requires
            n == e.value() * o,
            e.value() >= 0,
            o > 0,
    ;
    assert(n * bv <= n * pv) by (nonlinear_arith)
        requires
            n >= 0,
            bv <= pv,
    ;
    rounding::lemma_ordered(n, pv, n, bv);
    let low = e.quotient(p);
    let high = e.quotient(b);
    rounding::lemma_negation(unit);
    // A peak is at least one and at least the equity.
    assert(e.value() <= p.value());
    assert(n * 1 <= o * pv) by (nonlinear_arith)
        requires
            n == e.value() * o,
            e.value() <= pv,
            o > 0,
    ;
    rounding::lemma_ordered(n, pv, o, 1);
    rounding::lemma_exact(o, 1, unit);
    rounding::lemma_ordered(0, 1, n, pv);
    rounding::lemma_exact(0, 1, Binary64::of_int(0));
    rounding::lemma_order_finite(low, unit);
    rounding::lemma_operations(low, unit);
    if high.finite() {
        rounding::lemma_operations(high, unit);
        rounding::lemma_ordered(low.value() - o, 1, high.value() - o, 1);
    } else {
        rounding::lemma_mag_unit(high);
        rounding::lemma_mag_unit(unit.negation());
        assert(high.infinite());
        assert(high.value() > 0) by {
            rounding::lemma_infinite(high, Binary64::of_int(0));
            rounding::lemma_infinite_is_not_zero(high);
        }
        assert(high.difference(unit) == high);
        rounding::lemma_infinite(high, low.difference(unit));
    }
}

/// The mean is as near as any value to the sum of all returns over the days.
pub proof fn law_mean_shares_the_returns(values: Seq<Binary64>, x: Binary64)
    requires
        fits(values),
        0 < values.len() <= 0x20_0000_0000_0000,
        x.finite(),
    ensures
        ({
            let n = values.len() as int;
            let mean = of(values).mean_daily_return.value();
            &&& distance(mean * n, exact_sum(values)) <= distance(
                x.value() * n,
                exact_sum(values),
            )
            &&& x.value() * n == exact_sum(values) ==> mean == x.value()
        }),
{
    averages::law_means_share_the_sum(values, x);
}

/// The sum of squared distances from a middle.
pub open spec fn exact_spread(values: Seq<Binary64>, middle: int) -> int
    decreases values.len(),
{
    if values.len() == 0 {
        0
    } else {
        exact_spread(values.drop_last(), middle) + (values.last().value() - middle) * (
        values.last().value() - middle)
    }
}

/// Whether values are the squared distances of others from a middle.
pub open spec fn are_squares(squares: Seq<Binary64>, values: Seq<Binary64>, middle: int) -> bool {
    &&& squares.len() == values.len()
    &&& forall|i: int|
        0 <= i < values.len() ==> #[trigger] is_square_of(squares[i], values[i], middle)
}

pub open spec fn is_square_of(square: Binary64, value: Binary64, middle: int) -> bool {
    &&& square.finite()
    &&& value.finite()
    &&& is_held(value.value() - middle)
    &&& square.value() * one() == (value.value() - middle) * (value.value() - middle)
}

/// The volatility is that of a sample: its square, times the days less one, is the
/// sum of the squared distances of the returns from their mean. So it is wherever
/// none of the steps is rounded: `squares` are the squared distances, `variance`
/// their share and `deviation` its root.
pub proof fn law_volatility_is_of_a_sample(
    values: Seq<Binary64>,
    squares: Seq<Binary64>,
    variance: Binary64,
    deviation: Binary64,
)
    requires
        2 <= values.len() <= 0x20_0000_0000_0000,
        of(values).mean_daily_return.finite(),
        are_squares(squares, values, of(values).mean_daily_return.value()),
        fits(squares),
        variance.finite(),
        variance.value() * (values.len() - 1) == exact_sum(squares),
        deviation.finite(),
        deviation.value() >= 0,
        deviation.value() * deviation.value() == variance.value() * one(),
    ensures
        of(values).daily_volatility.value() == deviation.value(),
        of(values).daily_volatility.value() * of(values).daily_volatility.value() * (
        values.len() - 1) == exact_spread(values, of(values).mean_daily_return.value()),
{
    let mean = of(values).mean_daily_return;
    let found = performance::squares(values, mean);
    let n = values.len() - 1;
    let o = one();
    lemma_one();
    assert forall|i: int| 0 <= i < values.len() implies (#[trigger] found[i]).value()
        == squares[i].value() && found[i].finite() by {
        assert(is_square_of(squares[i], values[i], mean.value()));
        lemma_square(values[i], mean, squares[i]);
    }
    lemma_same_sums(squares, found);
    averages::law_sums_count_every_value(found);
    rounding::law_integers_are_exact(n);
    let v = variance.value();
    assert(n * o > 0) by (nonlinear_arith)
        requires
            n > 0,
            o > 0,
    ;
    assert(v * (n * o) == (v * n) * o) by (nonlinear_arith);
    rounding::law_quotients_are_nearest(
        statistics::sum(found),
        Binary64::of_int(n),
        variance,
    );
    let q = statistics::sum(found).quotient(Binary64::of_int(n));
    let w = deviation.value();
    assert(q.value() >= 0) by (nonlinear_arith)
        requires
            w * w == q.value() * o,
            o > 0,
    ;
    rounding::law_roots_are_exact_or_next(q, deviation);
    lemma_spread(squares, values, mean.value());
    assert(w * w * n == exact_spread(values, mean.value())) by (nonlinear_arith)
        requires
            w * w == v * o,
            exact_sum(squares) * o == exact_spread(values, mean.value()),
            v * n == exact_sum(squares),
    ;
}

proof fn lemma_square(value: Binary64, mean: Binary64, square: Binary64)
    requires
        mean.finite(),
        is_square_of(square, value, mean.value()),
    ensures
        value.difference(mean).product(value.difference(mean)).value() == square.value(),
        value.difference(mean).product(value.difference(mean)).finite(),
{
    let d = choose|d: Binary64| #[trigger]
        d.value() == value.value() - mean.value() && d.finite();
    rounding::law_differences_are_nearest(value, mean, d);
    let e = value.difference(mean);
    rounding::law_products_are_nearest(e, e, square);
}

proof fn lemma_same_sums(a: Seq<Binary64>, b: Seq<Binary64>)
    requires
        fits(a),
        a.len() == b.len(),
        forall|i: int| 0 <= i < a.len() ==> (#[trigger] b[i]).value() == a[i].value()
            && b[i].finite(),
    ensures
        fits(b),
        exact_sum(b) == exact_sum(a),
{
    assert forall|k: int| 0 <= k <= b.len() implies exact_sum(#[trigger] b.take(k)) == exact_sum(
        a.take(k),
    ) by {
        lemma_same_prefix(a, b, k);
    }
    assert forall|k: int| 0 <= k <= b.len() implies is_held(exact_sum(#[trigger] b.take(k))) by {
        assert(is_held(exact_sum(a.take(k))));
    }
    assert(a.take(a.len() as int) =~= a);
    assert(b.take(b.len() as int) =~= b);
    assert(exact_sum(b.take(b.len() as int)) == exact_sum(a.take(a.len() as int)));
}

proof fn lemma_same_prefix(a: Seq<Binary64>, b: Seq<Binary64>, k: int)
    requires
        a.len() == b.len(),
        forall|i: int| 0 <= i < a.len() ==> (#[trigger] b[i]).value() == a[i].value(),
        0 <= k <= a.len(),
    ensures
        exact_sum(b.take(k)) == exact_sum(a.take(k)),
    decreases k,
{
    if k > 0 {
        assert(a.take(k).drop_last() =~= a.take(k - 1));
        assert(b.take(k).drop_last() =~= b.take(k - 1));
        lemma_same_prefix(a, b, k - 1);
        assert(b[k - 1].value() == a[k - 1].value());
    }
}

proof fn lemma_spread(squares: Seq<Binary64>, values: Seq<Binary64>, middle: int)
    requires
        are_squares(squares, values, middle),
    ensures
        exact_sum(squares) * one() == exact_spread(values, middle),
    decreases values.len(),
{
    let o = one();
    if values.len() > 0 {
        let last = values.len() - 1;
        assert(is_square_of(squares[last], values[last], middle));
        assert forall|i: int| 0 <= i < last implies #[trigger] is_square_of(
            squares.drop_last()[i],
            values.drop_last()[i],
            middle,
        ) by {
            assert(is_square_of(squares[i], values[i], middle));
        }
        lemma_spread(squares.drop_last(), values.drop_last(), middle);
        let a = exact_sum(squares.drop_last());
        let b = squares.last().value();
        assert((a + b) * o == a * o + b * o) by (nonlinear_arith);
    }
}

/// One day has no volatility, and without volatility there is no Sharpe ratio.
/// Else the ratio is the mean over the volatility, times the root of the trading
/// days of a year.
pub proof fn law_sharpe_is_annual(values: Seq<Binary64>, x: Binary64)
    requires
        values.len() > 0,
        x.finite(),
        x.value() >= 0,
    ensures
        values.len() == 1 ==> of(values).daily_volatility.value() == 0,
        of(values).daily_volatility.value() == 0 && !of(values).daily_volatility.nan()
            ==> of(values).sharpe.value() == 0,
        of(values).daily_volatility.value() != 0 && !of(values).daily_volatility.nan() ==> {
            let year = Binary64::of_int(252).root();
            &&& of(values).sharpe == of(values).mean_daily_return.quotient(
                of(values).daily_volatility,
            ).product(year)
            &&& x.value() * x.value() <= 252 * one() * one() ==> x.value() <= year.value()
            &&& x.value() * x.value() >= 252 * one() * one() ==> year.value() <= x.value()
        },
{
    lemma_one();
    rounding::law_integers_are_exact(252);
    let o = one();
    assert(252 * o > 0);
    rounding::law_roots_are_exact_or_next(Binary64::of_int(252), x);
}

/// A day counts as one with a return exactly where its return is not zero.
pub proof fn law_days_with_returns_are_counted(values: Seq<Binary64>, return_of_day: Binary64)
    requires
        return_of_day.finite(),
        values.len() < 0x1fff_ffff,
    ensures
        of(Seq::empty()).nonzero_days == 0,
        of(values.push(return_of_day)).days == values.len() + 1,
        of(values.push(return_of_day)).nonzero_days == of(values).nonzero_days + if return_of_day.value() == 0 {
            0int
        } else {
            1
        },
{
    lemma_one();
    let more = values.push(return_of_day);
    assert(more.drop_last() =~= values);
    lemma_nonzero(values);
}

proof fn lemma_nonzero(values: Seq<Binary64>)
    ensures
        0 <= performance::nonzero(values) <= values.len(),
    decreases values.len(),
{
    if values.len() > 0 {
        lemma_nonzero(values.drop_last());
    }
}

/// The return of a day is its count over a million millions, as near as a value can
/// be.
pub proof fn law_counts_are_of_the_twelfth_place(units: i64, x: Binary64)
    requires
        -0x20_0000_0000_0000 <= units <= 0x20_0000_0000_0000,
        x.finite(),
    ensures
        ({
            let r = fixed_point::amount(units);
            let exact = units * one();
            &&& distance(r.value() * 1_000_000_000_000, exact) <= distance(
                x.value() * 1_000_000_000_000,
                exact,
            )
            &&& x.value() * 1_000_000_000_000 == exact ==> r.value() == x.value() && r.finite()
        }),
{
    let o = one();
    lemma_one();
    let u = units as int;
    let million = 1_000_000_000_000int;
    rounding::law_integers_are_exact(u);
    rounding::law_integers_are_exact(million);
    assert(million * o > 0) by (nonlinear_arith)
        requires
            million > 0,
            o > 0,
    ;
    let d = Binary64::of_int(million);
    let a = Binary64::of_int(u);
    rounding::law_quotients_are_nearest(a, d, x);
    let r = fixed_point::amount(units);
    assert(r.value() * (million * o) == (r.value() * million) * o) by (nonlinear_arith);
    assert(x.value() * (million * o) == (x.value() * million) * o) by (nonlinear_arith);
    averages::lemma_distance(r.value() * million, u * o, o);
    averages::lemma_distance(x.value() * million, u * o, o);
    let here = distance(r.value() * million, u * o);
    let there = distance(x.value() * million, u * o);
    assert(here <= there) by (nonlinear_arith)
        requires
            here * o <= there * o,
            o > 0,
    ;
}

/// The returns of days are the counts of their portfolios.
pub proof fn law_portfolio_returns_are_the_days(days: Seq<DailyReturn>, i: int)
    requires
        0 <= i < days.len(),
    ensures
        performance::portfolio_returns(days).len() == days.len(),
        performance::portfolio_returns(days)[i] == fixed_point::amount(
            days[i].portfolio_return_units,
        ),
{
}

} // verus!
