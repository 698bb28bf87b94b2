//! What a trade earns: the side that it took, the way that the price went, its cost
//! and its weights.

use super::fixed_point;
use super::replay;
use super::replay::ActiveExposure;
use super::{ExitReason, ExposureSide};
use crate::averages::is_held;
use crate::binary64;
use crate::binary64::Binary64;
use crate::rounding;
use crate::rounding::{distance, nearest_to, one};
use vstd::arithmetic::power2::*;
use vstd::prelude::*;

verus! {

proof fn lemma_one()
    ensures
        Binary64::of_int(1).finite(),
        Binary64::of_int(1).value() == one(),
        Binary64::of_int(-1).finite(),
        Binary64::of_int(-1).value() == -one(),
        Binary64::of_int(0).finite(),
        Binary64::of_int(0).value() == 0,
        one() > 0,
{
    rounding::law_integers_are_exact(1);
    rounding::law_integers_are_exact(-1);
    rounding::law_integers_are_exact(0);
    rounding::lemma_operations(Binary64::of_int(0), Binary64::of_int(0));
    assert(1 * one() == one() && 0 * one() == 0 && -1 * one() == -one());
}

/// What lies between numbers is a number.
proof fn lemma_between(low: Binary64, x: Binary64, high: Binary64)
    requires
        low.finite(),
        high.finite(),
        !x.nan(),
        low.value() <= x.value() <= high.value(),
    ensures
        x.finite(),
{
    rounding::lemma_mag_unit(low);
    rounding::lemma_mag_unit(x);
    rounding::lemma_mag_unit(high);
    binary64::lemma_order(low.mag(), x.mag());
    binary64::lemma_order(high.mag(), x.mag());
}

/// The nearest value to what lies between two values lies between them.
proof fn lemma_nearest_between(n: int, d: int, low: Binary64, high: Binary64)
    requires
        d > 0,
        low.finite(),
        high.finite(),
        low.value() * d <= n <= high.value() * d,
    ensures
        nearest_to(n, d).finite(),
        low.value() <= nearest_to(n, d).value() <= high.value(),
{
    assert(low.value() * d * d <= n * d) by (nonlinear_arith)
        requires
            low.value() * d <= n,
            d > 0,
    ;
    assert(n * d <= high.value() * d * d) by (nonlinear_arith)
        requires
            n <= high.value() * d,
            d > 0,
    ;
    rounding::lemma_ordered(low.value() * d, d, n, d);
    rounding::lemma_ordered(n, d, high.value() * d, d);
    rounding::lemma_exact(low.value() * d, d, low);
    rounding::lemma_exact(high.value() * d, d, high);
    lemma_between(low, nearest_to(n, d), high);
}

/// The largest multiple by which prices are compared here.
spec fn bound() -> int {
    0x4_0000_0000_0000
}

/// The order of two net returns, step by step.
proof fn lemma_steps(
    side: ExposureSide,
    entry: Binary64,
    a: Binary64,
    b: Binary64,
    cost: Binary64,
)
    requires
        entry.finite(),
        a.finite(),
        b.finite(),
        cost.finite(),
        0 < entry.value(),
        0 <= a.value() <= b.value(),
        b.value() <= bound() * entry.value(),
        0 <= cost.value() <= one(),
    ensures
        ({
            let x = replay::net_value(side, entry, a, cost);
            let y = replay::net_value(side, entry, b, cost);
            &&& x.finite() && y.finite()
            &&& side == ExposureSide::Long ==> x.value() <= y.value()
            &&& side == ExposureSide::Short ==> y.value() <= x.value()
        }),
{
    lemma_one();
    let unit = Binary64::of_int(1);
    let o = one();
    let e = entry.value();
    let top = Binary64::of_int(bound());
    rounding::law_integers_are_exact(bound());
    let zero = Binary64::of_int(0);
    rounding::lemma_operations(a, entry);
    rounding::lemma_operations(b, entry);
    let qa = a.quotient(entry);
    let qb = b.quotient(entry);
    let av = a.value();
    let bv = b.value();
    assert(0 <= av * o && av * o <= bv * o && bv * o <= (bound() * o) * e && (av * o) * e <= (bv
        * o) * e && 0 * e == 0) by (nonlinear_arith)
        requires
            0 <= av <= bv,
            bv <= bound() * e,
            o > 0,
            e > 0,
    ;
    lemma_nearest_between(av * o, e, zero, top);
    lemma_nearest_between(bv * o, e, zero, top);
    rounding::lemma_ordered(av * o, e, bv * o, e);
    rounding::lemma_same(qa, nearest_to(av * o, e));
    rounding::lemma_same(qb, nearest_to(bv * o, e));
    // What the price moved.
    let minus = Binary64::of_int(-1);
    rounding::lemma_operations(qa, unit);
    rounding::lemma_operations(qb, unit);
    lemma_nearest_between(qa.value() - o, 1, minus, top);
    lemma_nearest_between(qb.value() - o, 1, minus, top);
    rounding::lemma_ordered(qa.value() - o, 1, qb.value() - o, 1);
    let ma = qa.difference(unit);
    let mb = qb.difference(unit);
    rounding::lemma_same(ma, nearest_to(qa.value() - o, 1));
    rounding::lemma_same(mb, nearest_to(qb.value() - o, 1));
    lemma_side(side, ma);
    lemma_side(side, mb);
    let direction = match side {
        ExposureSide::Long => unit,
        ExposureSide::Short => Binary64::of_int(-1),
    };
    let ga = direction.product(ma);
    let gb = direction.product(mb);
    // The worth after it.
    let wide = Binary64::of_int(2 * bound());
    let deep = Binary64::of_int(-2 * bound());
    rounding::law_integers_are_exact(2 * bound());
    rounding::law_integers_are_exact(-2 * bound());
    assert(bound() * o >= o && 2 * bound() * o >= bound() * o + o && -2 * bound() * o == -(2
        * bound() * o)) by (nonlinear_arith)
        requires
            o > 0,
            bound() >= 1,
    ;
    rounding::lemma_operations(unit, ga);
    rounding::lemma_operations(unit, gb);
    lemma_nearest_between(o + ga.value(), 1, deep, wide);
    lemma_nearest_between(o + gb.value(), 1, deep, wide);
    let wa = unit.total(ga);
    let wb = unit.total(gb);
    rounding::lemma_same(wa, nearest_to(o + ga.value(), 1));
    rounding::lemma_same(wb, nearest_to(o + gb.value(), 1));
    if ga.value() <= gb.value() {
        rounding::lemma_ordered(o + ga.value(), 1, o + gb.value(), 1);
    }
    if gb.value() <= ga.value() {
        rounding::lemma_ordered(o + gb.value(), 1, o + ga.value(), 1);
    }
    // What the cost leaves.
    rounding::lemma_operations(unit, cost);
    lemma_nearest_between(o - cost.value(), 1, zero, unit);
    let left = unit.difference(cost);
    rounding::lemma_same(left, nearest_to(o - cost.value(), 1));
    lemma_share(wa, left, deep, wide);
    lemma_share(wb, left, deep, wide);
    let la = wa.product(left);
    let lb = wb.product(left);
    if wa.value() <= wb.value() {
        lemma_shares_ordered(wa, wb, left);
    }
    if wb.value() <= wa.value() {
        lemma_shares_ordered(wb, wa, left);
    }
    // The return.
    let bottom = Binary64::of_int(-3 * bound());
    rounding::law_integers_are_exact(-3 * bound());
    assert(-3 * bound() * o <= -(2 * bound() * o) - o) by (nonlinear_arith)
        requires
            o > 0,
            bound() >= 1,
    ;
    rounding::lemma_operations(la, unit);
    rounding::lemma_operations(lb, unit);
    lemma_nearest_between(la.value() - o, 1, bottom, wide);
    lemma_nearest_between(lb.value() - o, 1, bottom, wide);
    rounding::lemma_same(la.difference(unit), nearest_to(la.value() - o, 1));
    rounding::lemma_same(lb.difference(unit), nearest_to(lb.value() - o, 1));
    if la.value() <= lb.value() {
        rounding::lemma_ordered(la.value() - o, 1, lb.value() - o, 1);
    }
    if lb.value() <= la.value() {
        rounding::lemma_ordered(lb.value() - o, 1, la.value() - o, 1);
    }
}

/// One or its opposite, times a number.
proof fn lemma_side(side: ExposureSide, m: Binary64)
    requires
        m.finite(),
    ensures
        side == ExposureSide::Long ==> Binary64::of_int(1).product(m).value() == m.value()
            && Binary64::of_int(1).product(m).finite(),
        side == ExposureSide::Short ==> Binary64::of_int(-1).product(m).value() == -m.value()
            && Binary64::of_int(-1).product(m).finite(),
{
    lemma_one();
    let o = one();
    let v = m.value();
    rounding::lemma_negation(m);
    assert(v * o == o * v && (-v) * o == (-o) * v) by (nonlinear_arith);
    rounding::law_products_are_nearest(Binary64::of_int(1), m, m);
    rounding::law_products_are_nearest(Binary64::of_int(-1), m, m.negation());
}

/// A part of a number lies no further out.
proof fn lemma_share(w: Binary64, left: Binary64, deep: Binary64, wide: Binary64)
    requires
        w.finite(),
        left.finite(),
        deep.finite(),
        wide.finite(),
        deep.value() <= 0 <= wide.value(),
        deep.value() <= w.value() <= wide.value(),
        0 <= left.value() <= one(),
    ensures
        w.product(left).finite(),
        deep.value() <= w.product(left).value() <= wide.value(),
{
    let o = one();
    lemma_one();
    let n = w.value() * left.value();
    rounding::lemma_operations(w, left);
    assert(deep.value() * o <= n && n <= wide.value() * o) by (nonlinear_arith)
        requires
            n == w.value() * left.value(),
            deep.value() <= w.value() <= wide.value(),
            deep.value() <= 0 <= wide.value(),
            0 <= left.value() <= o,
    ;
    lemma_nearest_between(n, o, deep, wide);
    rounding::lemma_same(w.product(left), nearest_to(n, o));
}

proof fn lemma_shares_ordered(a: Binary64, b: Binary64, left: Binary64)
    requires
        a.finite(),
        b.finite(),
        left.finite(),
        a.value() <= b.value(),
        0 <= left.value(),
    ensures
        a.product(left).value() <= b.product(left).value(),
{
    let o = one();
    lemma_one();
    rounding::lemma_operations(a, left);
    rounding::lemma_operations(b, left);
    let n = a.value() * left.value();
    let m = b.value() * left.value();
    assert(n * o <= m * o) by (nonlinear_arith)
        requires
            n == a.value() * left.value(),
            m == b.value() * left.value(),
            a.value() <= b.value(),
            0 <= left.value(),
            o > 0,
    ;
    rounding::lemma_ordered(n, o, m, o);
}

/// Whether the prices of a trade are numbers of an ordinary size: positive, and the
/// exit no more than a million millions of times the entry.
pub open spec fn is_ordinary(entry: Binary64, exit: Binary64) -> bool {
    &&& entry.finite() && exit.finite()
    &&& 0 < entry.value()
    &&& 0 < exit.value() <= 1_000_000_000_000 * entry.value()
}

/// A long position earns no less where it is left at a higher price, and a short one
/// no more, whatever is rounded on the way.
pub proof fn law_profits_go_with_the_side(
    active: ActiveExposure,
    timestamp_ns: u64,
    lower: Binary64,
    higher: Binary64,
    reason: ExitReason,
)
    requires
        is_ordinary(active.entry_price, lower),
        is_ordinary(active.entry_price, higher),
        lower.value() <= higher.value(),
        active.pending.order.cost_fraction.finite(),
        0 <= active.pending.order.cost_fraction.value() < one(),
        replay::trade_of(active, timestamp_ns, lower, reason) is Some,
        replay::trade_of(active, timestamp_ns, higher, reason) is Some,
    ensures
        ({
            let a = replay::trade_of(active, timestamp_ns, lower, reason)->Some_0;
            let b = replay::trade_of(active, timestamp_ns, higher, reason)->Some_0;
            &&& active.pending.order.side == ExposureSide::Long ==> a.net_return_units
                <= b.net_return_units
            &&& active.pending.order.side == ExposureSide::Short ==> b.net_return_units
                <= a.net_return_units
        }),
{
    let order = active.pending.order;
    lemma_steps(order.side, active.entry_price, lower, higher, order.cost_fraction);
    let x = replay::net_value(order.side, active.entry_price, lower, order.cost_fraction);
    let y = replay::net_value(order.side, active.entry_price, higher, order.cost_fraction);
    lemma_below_limit(x);
    lemma_below_limit(y);
    if order.side == ExposureSide::Long {
        fixed_point::law_counting_rounds_to_the_nearest(x, y);
    } else {
        fixed_point::law_counting_rounds_to_the_nearest(y, x);
    }
}

/// What is counted lies below the limit.
proof fn lemma_below_limit(x: Binary64)
    requires
        fixed_point::units(x) is Some,
    ensures
        x.absolute().less(fixed_point::limit()),
{
    fixed_point::lemma_limit_is_large();
    rounding::lemma_mag_unit(x.absolute());
    assert(!fixed_point::limit().nan());
}

/// The return of a trade in exact numbers, wherever no step of it is rounded: with
/// the proportion `moved` of the exit to the entry, one and the return are what the
/// position is worth after the price has moved, less its cost. A long position is
/// worth what the price has become, a short one as much more as the price has
/// fallen.
pub proof fn law_returns_are_worth_less_cost(
    side: ExposureSide,
    entry: Binary64,
    exit: Binary64,
    cost: Binary64,
    moved: Binary64,
    kept: Binary64,
)
    requires
        entry.finite(),
        exit.finite(),
        cost.finite(),
        entry.value() > 0,
        moved.finite(),
        moved.value() * entry.value() == exit.value() * one(),
        is_held(moved.value() - one()),
        is_held(2 * one() - moved.value()),
        is_held(one() - cost.value()),
        kept.finite(),
        kept.value() * one() == (if side == ExposureSide::Long {
            moved.value()
        } else {
            2 * one() - moved.value()
        }) * (one() - cost.value()),
        is_held(kept.value() - one()),
    ensures
        ({
            let r = replay::net_value(side, entry, exit, cost);
            let worth = if side == ExposureSide::Long {
                exit.value()
            } else {
                2 * entry.value() - exit.value()
            };
            &&& r.finite()
            &&& r.value() == kept.value() - one()
            &&& (r.value() + one()) * entry.value() == worth * (one() - cost.value())
        }),
{
    lemma_one();
    let o = one();
    let unit = Binary64::of_int(1);
    let e = entry.value();
    let m = moved.value();
    rounding::law_quotients_are_nearest(exit, entry, moved);
    let q = exit.quotient(entry);
    let g = choose|g: Binary64| #[trigger] g.value() == m - o && g.finite();
    rounding::law_differences_are_nearest(q, unit, g);
    let gain = q.difference(unit);
    lemma_side(side, gain);
    let direction = match side {
        ExposureSide::Long => unit,
        ExposureSide::Short => Binary64::of_int(-1),
    };
    let gross = direction.product(gain);
    let w = if side == ExposureSide::Long {
        m
    } else {
        2 * o - m
    };
    let h = choose|h: Binary64| #[trigger] h.value() == 2 * o - m && h.finite();
    let held = if side == ExposureSide::Long {
        moved
    } else {
        h
    };
    assert(o + gross.value() == w);
    rounding::law_sums_are_nearest(unit, gross, held);
    let c = choose|c: Binary64| #[trigger] c.value() == o - cost.value() && c.finite();
    rounding::law_differences_are_nearest(unit, cost, c);
    rounding::law_products_are_nearest(unit.total(gross), unit.difference(cost), kept);
    let r = choose|r: Binary64| #[trigger] r.value() == kept.value() - o && r.finite();
    rounding::law_differences_are_nearest(
        unit.total(gross).product(unit.difference(cost)),
        unit,
        r,
    );
    let k = kept.value();
    let f = o - cost.value();
    let x = exit.value();
    let worth = if side == ExposureSide::Long {
        x
    } else {
        2 * e - x
    };
    assert(w * e == worth * o) by (nonlinear_arith)
        requires
            m * e == x * o,
            w == m && worth == x || w == 2 * o - m && worth == 2 * e - x,
    ;
    assert((k * e) * o == (worth * f) * o) by (nonlinear_arith)
        requires
            k * o == w * f,
            w * e == worth * o,
    ;
    assert(k * e == worth * f) by (nonlinear_arith)
        requires
            (k * e) * o == (worth * f) * o,
            o > 0,
    ;
}

/// A count that is not too large is counted again as what it is.
pub proof fn law_counts_are_kept(units: i64)
    requires
        -0x8_0000_0000_0000 <= units <= 0x8_0000_0000_0000,
    ensures
        fixed_point::units(fixed_point::amount(units)) == Some(units),
{
    let n = units as int;
    let size = rounding::magnitude(n);
    let r = fixed_point::amount(units);
    let million = 1_000_000_000_000int;
    lemma_one();
    let o = one();
    // A value that lies within less than half a count.
    let step = pow2(1033) as int;
    lemma_pow2_adds(1033, 41);
    lemma2_to64();
    lemma2_to64_rest();
    assert(o == step * 0x200_0000_0000);
    lemma_pow2_pos(1033);
    let m = size * 0x200_0000_0000 / million;
    assert(0 <= m <= 0x20_0000_0000_0000) by (nonlinear_arith)
        requires
            m == size * 0x200_0000_0000 / million,
            0 <= size <= 0x8_0000_0000_0000,
            million == 1_000_000_000_000,
    ;
    assert(0 <= size * 0x200_0000_0000 - m * million < million);
    let x = rounding::lemma_multiple_is_held(m, 1033);
    let signed = if n < 0 {
        x.negation()
    } else {
        x
    };
    rounding::lemma_negation(x);
    super::growth::law_counts_are_of_the_twelfth_place(units, signed);
    let off = distance(signed.value() * million, n * o);
    assert(2 * off < o) by (nonlinear_arith)
        requires
            off == distance(signed.value() * million, n * o),
            signed.value() == m * step && n == size || signed.value() == -(m * step) && n == -size,
            0 <= size * 0x200_0000_0000 - m * million < million,
            o == step * 0x200_0000_0000,
            step > 0,
            million == 1_000_000_000_000,
    ;
    let near = r.value() * million - n * o;
    assert(-o < 2 * near && 2 * near < o);
    lemma_small_amount(units, r);
    fixed_point::law_counting_rounds_to_the_nearest(r, r);
    let c = fixed_point::units(r)->Some_0 as int;
    assert(c == n) by (nonlinear_arith)
        requires
            -o <= 2 * (c * o) - 2 * (r.value() * million) <= o,
            near == r.value() * million - n * o,
            -o < 2 * near,
            2 * near < o,
            o > 0,
    ;
}

/// What such a count stands for lies far below the limit.
proof fn lemma_small_amount(units: i64, r: Binary64)
    requires
        -0x8_0000_0000_0000 <= units <= 0x8_0000_0000_0000,
        r == fixed_point::amount(units),
    ensures
        r.absolute().less(fixed_point::limit()),
        r.finite(),
{
    lemma_one();
    let o = one();
    let n = units as int;
    let million = 1_000_000_000_000int;
    let scale = Binary64::of_int(million);
    rounding::law_integers_are_exact(n);
    rounding::law_integers_are_exact(million);
    rounding::law_integers_are_exact(0x8000);
    rounding::law_integers_are_exact(-0x8000);
    let a = Binary64::of_int(n);
    let d = million * o;
    assert(d > 0) by (nonlinear_arith)
        requires
            d == million * o,
            o > 0,
            million > 0,
    ;
    rounding::lemma_operations(a, scale);
    let e = (n * o) * o;
    assert((-0x8000 * o) * d <= e && e <= (0x8000 * o) * d) by (nonlinear_arith)
        requires
            e == (n * o) * o,
            d == million * o,
            -0x8_0000_0000_0000 <= n <= 0x8_0000_0000_0000,
            million == 1_000_000_000_000,
            o > 0,
    ;
    lemma_nearest_between(e, d, Binary64::of_int(-0x8000), Binary64::of_int(0x8000));
    rounding::lemma_same(r, nearest_to(e, d));
    fixed_point::lemma_limit_is_large();
    assert(0x8000 * o < 9_000_000 * o) by (nonlinear_arith)
        requires
            o > 0,
    ;
    rounding::lemma_mag_unit(r);
    rounding::lemma_mag_unit(r.absolute());
}

/// A trade counts the net return of its exposure, and that return times its scale
/// and its weight. Where the products have exact values, the weighted count is that
/// of the product; at scale and weight one it is the net count itself. All else is
/// told as the order and the exit have it.
pub proof fn law_trades_count_their_returns(
    active: ActiveExposure,
    timestamp_ns: u64,
    price: Binary64,
    reason: ExitReason,
    scaled: Binary64,
    weighted: Binary64,
)
    requires
        replay::trade_of(active, timestamp_ns, price, reason) is Some,
        active.pending.order.component_scale.finite(),
        active.pending.order.instrument_weight.finite(),
    ensures
        ({
            let order = active.pending.order;
            let trade = replay::trade_of(active, timestamp_ns, price, reason)->Some_0;
            let net = fixed_point::amount(trade.net_return_units);
            let small = -0x8_0000_0000_0000 <= trade.net_return_units <= 0x8_0000_0000_0000;
            &&& Some(trade.net_return_units) == fixed_point::units(
                replay::net_value(order.side, active.entry_price, price, order.cost_fraction),
            )
            &&& small && scaled.finite() && weighted.finite() && scaled.value() * one()
                == net.value() * order.component_scale.value() && weighted.value() * one()
                == scaled.value() * order.instrument_weight.value() && weighted.value() != 0 ==> Some(
                trade.weighted_return_units,
            ) == fixed_point::units(weighted)
            &&& small && order.component_scale.value() == one() && order.instrument_weight.value()
                == one() && trade.net_return_units != 0 ==> trade.weighted_return_units
                == trade.net_return_units
            &&& trade.exit_price == price
            &&& trade.entry_price == active.entry_price
            &&& trade.side == order.side
            &&& trade.entry_timestamp_ns == active.entry_timestamp_ns
            &&& trade.exit_timestamp_ns == timestamp_ns
            &&& trade.exit_reason == reason
        }),
{
    let order = active.pending.order;
    let trade = replay::trade_of(active, timestamp_ns, price, reason)->Some_0;
    let net = fixed_point::amount(trade.net_return_units);
    let small = -0x8_0000_0000_0000 <= trade.net_return_units <= 0x8_0000_0000_0000;
    if small {
        lemma_small_amount(trade.net_return_units, net);
        let scale = order.component_scale;
        let weight = order.instrument_weight;
        if scaled.finite() && weighted.finite() && scaled.value() * one() == net.value()
            * scale.value() && weighted.value() * one() == scaled.value() * weight.value()
            && weighted.value() != 0 {
            lemma_weighted(net, scale, weight, scaled, weighted);
        }
        if scale.value() == one() && weight.value() == one() && trade.net_return_units != 0 {
            lemma_some_amount(trade.net_return_units);
            lemma_weighted(net, scale, weight, net, net);
            law_counts_are_kept(trade.net_return_units);
        }
    }
}

proof fn lemma_weighted(
    net: Binary64,
    scale: Binary64,
    weight: Binary64,
    scaled: Binary64,
    weighted: Binary64,
)
    requires
        net.finite(),
        scale.finite(),
        weight.finite(),
        scaled.finite(),
        weighted.finite(),
        scaled.value() * one() == net.value() * scale.value(),
        weighted.value() * one() == scaled.value() * weight.value(),
        weighted.value() != 0,
    ensures
        net.product(scale).product(weight) == weighted,
{
    rounding::law_products_are_nearest(net, scale, scaled);
    rounding::law_products_are_nearest(net.product(scale), weight, weighted);
    rounding::lemma_same_pattern(net.product(scale).product(weight), weighted);
}

/// A count that is not zero stands for something.
proof fn lemma_some_amount(units: i64)
    requires
        units != 0,
        -0x8_0000_0000_0000 <= units <= 0x8_0000_0000_0000,
    ensures
        fixed_point::amount(units).value() != 0,
{
    law_counts_are_kept(units);
    let r = fixed_point::amount(units);
    if r.value() == 0 {
        lemma_small_amount(units, r);
        fixed_point::law_counting_rounds_to_the_nearest(r, r);
        lemma_one();
        let o = one();
        let u = units as int;
        assert(u == 0) by (nonlinear_arith)
            requires
                -o <= 2 * (u * o) - 2 * (r.value() * fixed_point::FIXED_SCALE) <= o,
                r.value() == 0,
                o > 0,
        ;
    }
}

} // verus!
