//! Returns by trading day and component.

use super::fixed_point;
use super::{CensoredExposure, ComponentTrade, FixedCapitalError, Problem};
use crate::binary64::Binary64;
use crate::calendar;
use crate::calendar::TradingDay;
use crate::ordered;
use crate::ordered::{TextMap, TextSet};
use vstd::prelude::*;

verus! {

pub const NANOS_PER_DAY: u64 = 86_400_000_000_000;

/// The wall clock of Shanghai runs eight hours ahead.
pub const SHANGHAI_OFFSET_NS: u64 = 28_800_000_000_000;

#[derive(Clone, Debug, PartialEq, Eq)]
pub struct DailyReturn {
    pub day: TradingDay,
    pub component_return_units: TextMap<i64>,
    pub portfolio_return_units: i64,
}

impl DailyReturn {
    pub fn portfolio_return(&self) -> (r: Binary64)
        ensures
            r == fixed_point::amount(self.portfolio_return_units),
    {
        fixed_point::from_fixed(self.portfolio_return_units)
    }
}

/// The number of the Shanghai day on which an instant falls.
pub open spec fn local_day(timestamp_ns: u64) -> Option<int> {
    if timestamp_ns + SHANGHAI_OFFSET_NS > u64::MAX {
        None
    } else {
        Some((timestamp_ns + SHANGHAI_OFFSET_NS) / NANOS_PER_DAY as int)
    }
}

/// The Shanghai day on which an instant falls.
pub fn trading_day(timestamp_ns: u64) -> (r: Result<TradingDay, FixedCapitalError>)
    ensures
        match local_day(timestamp_ns) {
            None => r matches Err(error) && error@ == Problem::TimestampRange,
            Some(number) => {
                &&& r matches Ok(day) && day.number() == number && day.valid() && day@ == calendar::date_of(
                    number,
                )
            },
        },
{
    match timestamp_ns.checked_add(SHANGHAI_OFFSET_NS) {
        None => Err(FixedCapitalError::TimestampRange),
        Some(local) => {
            let day: TradingDay = TradingDay::after_epoch((local / NANOS_PER_DAY) as u32);
            proof {
                calendar::lemma_number_order(day@, calendar::date_of(day.number()));
            }
            Ok(day)
        },
    }
}

/// What the trades of a component add up to on a day.
pub open spec fn units_on(
    trades: Seq<ComponentTrade>,
    number: int,
    component: Seq<char>,
) -> int
    decreases trades.len(),
{
    if trades.len() == 0 {
        0
    } else {
        units_on(trades.drop_last(), number, component) + if local_day(
            trades.last().exit_timestamp_ns,
        ) == Some(number) && trades.last().component@ == component {
            trades.last().weighted_return_units as int
        } else {
            0
        }
    }
}

/// Whether a calendar holds a day.
pub open spec fn on_calendar(days: Seq<TradingDay>, number: int) -> bool {
    exists|d: int| 0 <= d < days.len() && (#[trigger] days[d]).number() == number
}

/// The first trade that cannot be booked, if there is one: its exit has no day,
/// lies outside the calendar, or takes a running sum out of range.
pub open spec fn unbookable(trades: Seq<ComponentTrade>, days: Seq<TradingDay>) -> Option<Problem>
    decreases trades.len(),
{
    if trades.len() == 0 {
        None
    } else {
        match unbookable(trades.drop_last(), days) {
            Some(problem) => Some(problem),
            None => match local_day(trades.last().exit_timestamp_ns) {
                None => Some(Problem::TimestampRange),
                Some(number) => if !on_calendar(days, number) {
                    Some(Problem::ExitOutsideCalendar(calendar::date_of(number)))
                } else if i64::MIN <= units_on(trades, number, trades.last().component@)
                    <= i64::MAX {
                    None
                } else {
                    Some(Problem::FixedPointOverflow)
                },
            },
        }
    }
}

/// The sum of values.
pub open spec fn column_sum(values: Seq<i64>) -> int
    decreases values.len(),
{
    if values.len() == 0 {
        0
    } else {
        column_sum(values.drop_last()) + values.last()
    }
}

/// What components add up to on a day.
pub open spec fn columns(keys: Seq<String>, trades: Seq<ComponentTrade>, number: int) -> Seq<i64> {
    keys.map_values(|key: String| units_on(trades, number, key@) as i64)
}

/// Whether values can be summed one after the other without leaving the range.
pub open spec fn summable(values: Seq<i64>) -> bool {
    forall|k: int|
        0 <= k <= values.len() ==> i64::MIN <= #[trigger] column_sum(values.take(k)) <= i64::MAX
}

/// Whether some trade of a component exits on a day.
pub open spec fn traded_on(
    trades: Seq<ComponentTrade>,
    number: int,
    component: Seq<char>,
) -> bool {
    exists|i: int|
        0 <= i < trades.len() && (#[trigger] trades[i]).component@ == component && local_day(
            trades[i].exit_timestamp_ns,
        ) == Some(number)
}

/// Whether `keys` lists the columns of a day in increasing order: the components
/// that are asked for, and those that trade on the day.
pub open spec fn lists_columns(
    keys: Seq<String>,
    components: Seq<String>,
    trades: Seq<ComponentTrade>,
    number: int,
) -> bool {
    &&& ordered::increasing(keys)
    &&& forall|c: Seq<char>| #[trigger]
        ordered::occurs(keys, c) <==> ordered::occurs(components, c) || traded_on(
            trades,
            number,
            c,
        )
}

/// Whether `keys` lists the columns of every day of a calendar.
pub open spec fn lists_calendar(
    keys: Seq<Seq<String>>,
    days: Seq<TradingDay>,
    components: Seq<String>,
    trades: Seq<ComponentTrade>,
) -> bool {
    &&& keys.len() == days.len()
    &&& forall|d: int|
        0 <= d < days.len() ==> lists_columns(
            #[trigger] keys[d],
            components,
            trades,
            days[d].number(),
        )
}

/// Whether `r` is what a day amounts to.
pub open spec fn is_daily(
    r: DailyReturn,
    day: TradingDay,
    keys: Seq<String>,
    trades: Seq<ComponentTrade>,
) -> bool {
    &&& r.day == day
    &&& r.component_return_units.well_formed()
    &&& r.component_return_units.keys() == keys
    &&& r.component_return_units.values() == columns(keys, trades, day.number())
    &&& r.portfolio_return_units == column_sum(columns(keys, trades, day.number()))
}

/// Whether an outcome is what bookable trades amount to on a calendar with given
/// columns: the rows of its days, unless a sum leaves the range.
pub open spec fn is_summed(
    r: Result<Vec<DailyReturn>, FixedCapitalError>,
    days: Seq<TradingDay>,
    keys: Seq<Seq<String>>,
    trades: Seq<ComponentTrade>,
) -> bool {
    if forall|d: int|
        0 <= d < days.len() ==> summable(columns(#[trigger] keys[d], trades, days[d].number())) {
        r matches Ok(daily) && daily@.len() == days.len() && forall|d: int|
            0 <= d < days.len() ==> is_daily(#[trigger] daily@[d], days[d], keys[d], trades)
    } else {
        r matches Err(error) && error@ == Problem::FixedPointOverflow
    }
}

/// Whether an outcome is the one that trades have on a calendar.
pub open spec fn is_booked(
    r: Result<Vec<DailyReturn>, FixedCapitalError>,
    days: Seq<TradingDay>,
    components: Seq<String>,
    trades: Seq<ComponentTrade>,
) -> bool {
    match unbookable(trades, days) {
        Some(problem) => r matches Err(error) && error@ == problem,
        None => exists|keys: Seq<Seq<String>>| #[trigger]
            lists_calendar(keys, days, components, trades) && is_summed(r, days, keys, trades),
    }
}

/// The components of trades, each once and in increasing order.
fn observed_components(trades: &[ComponentTrade]) -> (r: TextSet)
    ensures
        r.well_formed(),
        forall|c: Seq<char>| #[trigger] r.has(c) <==> traded(trades@, c),
{
    let mut found: TextSet = TextSet::new();
    let mut i: usize = 0;
    while i < trades.len()
        invariant
            i <= trades@.len(),
            found.well_formed(),
            forall|c: Seq<char>| #[trigger]
                found.has(c) <==> exists|j: int|
                    0 <= j < i && (#[trigger] trades@[j]).component@ == c,
        decreases trades@.len() - i,
    {
        let ghost before = found;
        let _new: bool = found.insert(trades[i].component.clone());
        proof {
            assert forall|c: Seq<char>| #[trigger] found.has(c) <==> exists|j: int|
                0 <= j < i + 1 && (#[trigger] trades@[j]).component@ == c by {
                if before.has(c) {
                    let j = choose|j: int| 0 <= j < i && (#[trigger] trades@[j]).component@ == c;
                    assert(trades@[j].component@ == c);
                }
                if c == trades@[i as int].component@ {
                    assert(trades@[i as int].component@ == c);
                }
            }
        }
        i = i + 1;
    }
    found
}

/// Adds the components of censored exposures to those of trades.
fn add_censored(
    found: &mut TextSet,
    censored: &[CensoredExposure],
    Ghost(trades): Ghost<Seq<ComponentTrade>>,
)
    requires
        old(found).well_formed(),
        forall|c: Seq<char>| #[trigger] old(found).has(c) <==> traded(trades, c),
    ensures
        final(found).well_formed(),
        forall|c: Seq<char>| #[trigger] final(found).has(c) <==> used(trades, censored@, c),
{
    let mut i: usize = 0;
    while i < censored.len()
        invariant
            i <= censored@.len(),
            found.well_formed(),
            forall|c: Seq<char>| #[trigger]
                found.has(c) <==> traded(trades, c) || exists|j: int|
                    0 <= j < i && (#[trigger] censored@[j]).component@ == c,
        decreases censored@.len() - i,
    {
        let ghost before = *found;
        let _new: bool = found.insert(censored[i].component.clone());
        proof {
            assert forall|c: Seq<char>| #[trigger] found.has(c) <==> traded(trades, c) || exists|
                j: int,
            |
                0 <= j < i + 1 && (#[trigger] censored@[j]).component@ == c by {
                if before.has(c) && !traded(trades, c) {
                    let j = choose|j: int|
                        0 <= j < i && (#[trigger] censored@[j]).component@ == c;
                    assert(censored@[j].component@ == c);
                }
                if c == censored@[i as int].component@ {
                    assert(censored@[i as int].component@ == c);
                }
            }
        }
        i = i + 1;
    }
}

/// Whether some trade belongs to a component.
pub open spec fn traded(trades: Seq<ComponentTrade>, component: Seq<char>) -> bool {
    exists|i: int| 0 <= i < trades.len() && (#[trigger] trades[i]).component@ == component
}

/// Whether some trade or some exposure that is left belongs to a component.
pub open spec fn used(
    trades: Seq<ComponentTrade>,
    censored: Seq<CensoredExposure>,
    component: Seq<char>,
) -> bool {
    traded(trades, component) || exists|i: int|
        0 <= i < censored.len() && (#[trigger] censored[i]).component@ == component
}

/// Whether an outcome is the order of the component columns: the configured
/// one, or all components of the trades in increasing order. The first component
/// that is used and not configured is refused, whether its exposure was
/// completed or is left.
pub open spec fn is_component_order(
    r: Result<Vec<String>, FixedCapitalError>,
    configured: Option<Seq<String>>,
    trades: Seq<ComponentTrade>,
    censored: Seq<CensoredExposure>,
) -> bool {
    match configured {
        None => r matches Ok(order) && ordered::increasing(order@) && forall|c: Seq<char>|
            #[trigger] ordered::occurs(order@, c) <==> traded(trades, c),
        Some(components) => match r {
            Ok(order) => order@ == components && forall|c: Seq<char>|
                #[trigger] used(trades, censored, c) ==> ordered::occurs(components, c),
            Err(error) => exists|c: Seq<char>| #[trigger]
                used(trades, censored, c) && error@ == Problem::UnknownComponent(c)
                    && !ordered::occurs(components, c) && forall|other: Seq<char>| #[trigger]
                    used(trades, censored, other) && crate::text::before(other, c)
                        ==> ordered::occurs(components, other),
        },
    }
}

/// Texts as a set.
fn text_set(values: &[String]) -> (r: TextSet)
    ensures
        r.well_formed(),
        forall|c: Seq<char>| #[trigger] r.has(c) <==> ordered::occurs(values@, c),
{
    let mut set: TextSet = TextSet::new();
    let mut i: usize = 0;
    while i < values.len()
        invariant
            i <= values@.len(),
            set.well_formed(),
            forall|c: Seq<char>| #[trigger] set.has(c) <==> ordered::occurs(
                values@.take(i as int),
                c,
            ),
        decreases values@.len() - i,
    {
        let _new: bool = set.insert(values[i].clone());
        proof {
            let shorter = values@.take(i as int);
            let longer = values@.take(i + 1);
            assert forall|c: Seq<char>| #[trigger] set.has(c) <==> ordered::occurs(longer, c) by {
                if ordered::occurs(shorter, c) {
                    let j = ordered::place(shorter, c);
                    assert(longer[j]@ == c);
                }
                if ordered::occurs(longer, c) {
                    let j = ordered::place(longer, c);
                    if j < i {
                        assert(shorter[j]@ == c);
                    }
                }
                assert(longer[i as int]@ == values@[i as int]@);
            }
        }
        i = i + 1;
    }
    assert(values@.take(values@.len() as int) =~= values@);
    set
}

/// A copy of texts.
fn copy_texts(values: &[String]) -> (r: Vec<String>)
    ensures
        r@ == values@,
{
    let mut out: Vec<String> = Vec::new();
    let mut i: usize = 0;
    while i < values.len()
        invariant
            i <= values@.len(),
            out@ == values@.take(i as int),
        decreases values@.len() - i,
    {
        out.push(values[i].clone());
        assert(out@ =~= values@.take(i + 1));
        i = i + 1;
    }
    assert(values@.take(values@.len() as int) =~= values@);
    out
}

/// The order of the component columns.
pub fn component_order(
    configured: Option<&[String]>,
    trades: &[ComponentTrade],
    censored: &[CensoredExposure],
) -> (r: Result<Vec<String>, FixedCapitalError>)
    ensures
        is_component_order(
            r,
            match configured {
                Some(components) => Some(components@),
                None => None,
            },
            trades@,
            censored@,
        ),
{
    let mut observed: TextSet = observed_components(trades);
    proof {
        observed.lemma_increasing();
    }
    let components: &[String] = match configured {
        None => {
            let order: Vec<String> = observed.into_keys();
            assert forall|c: Seq<char>| #[trigger] ordered::occurs(order@, c) <==> traded(
                trades@,
                c,
            ) by {
                assert(observed.has(c) <==> traded(trades@, c));
            }
            return Ok(order);
        },
        Some(components) => components,
    };
    add_censored(&mut observed, censored, Ghost(trades@));
    proof {
        observed.lemma_increasing();
    }
    let allowed: TextSet = text_set(components);
    let keys: &Vec<String> = observed.as_keys();
    let mut i: usize = 0;
    while i < keys.len()
        invariant
            i <= keys@.len(),
            keys@ == observed.keys(),
            ordered::increasing(keys@),
            forall|c: Seq<char>| #[trigger] observed.has(c) <==> used(trades@, censored@, c),
            allowed.well_formed(),
            forall|c: Seq<char>| #[trigger] allowed.has(c) <==> ordered::occurs(components@, c),
            forall|j: int| 0 <= j < i ==> ordered::occurs(components@, #[trigger] keys@[j]@),
            configured == Some(components),
        decreases keys@.len() - i,
    {
        if !allowed.contains(keys[i].as_str()) {
            proof {
                let c = keys@[i as int]@;
                assert(observed.has(c)) by {
                    ordered::lemma_place(keys@, i as int);
                }
                assert(used(trades@, censored@, c));
                assert(!allowed.has(c));
                assert forall|other: Seq<char>| #[trigger]
                    used(trades@, censored@, other) && crate::text::before(other, c) implies ordered::occurs(
                    components@,
                    other,
                ) by {
                    assert(observed.has(other));
                    let j = ordered::place(keys@, other);
                    assert(keys@[j]@ == other);
                    if j >= i {
                        crate::text::lemma_before_asymmetric(other, c);
                        if j > i {
                            assert(crate::text::before(keys@[i as int]@, keys@[j]@));
                        }
                    }
                }
            }
            return Err(FixedCapitalError::UnknownComponent(keys[i].clone()));
        }
        assert(allowed.has(keys@[i as int]@));
        i = i + 1;
    }
    assert forall|c: Seq<char>| #[trigger] used(trades@, censored@, c) implies ordered::occurs(
        components@,
        c,
    ) by {
        assert(observed.has(c));
        let j = ordered::place(keys@, c);
        assert(keys@[j]@ == c);
    }
    Ok(copy_texts(components))
}

/// Adds up the columns of a day one after the other.
fn checked_sum(row: &TextMap<i64>) -> (r: Option<i64>)
    requires
        row.well_formed(),
    ensures
        match r {
            Some(total) => summable(row.values()) && total == column_sum(row.values()),
            None => !summable(row.values()),
        },
{
    let ghost values = row.values();
    let mut total: i64 = 0;
    let mut i: usize = 0;
    proof {
        row.lemma_increasing();
    }
    while i < row.len()
        invariant
            row.well_formed(),
            values == row.values(),
            row.keys().len() == values.len(),
            i <= values.len(),
            total == column_sum(values.take(i as int)),
            forall|k: int|
                0 <= k <= i ==> i64::MIN <= #[trigger] column_sum(values.take(k)) <= i64::MAX,
        decreases values.len() - i,
    {
        proof {
            assert(values.take(i + 1).drop_last() =~= values.take(i as int));
        }
        match total.checked_add(*row.value(i)) {
            Some(next) => {
                total = next;
            },
            None => {
                assert(!(i64::MIN <= column_sum(values.take(i + 1)) <= i64::MAX));
                return None;
            },
        }
        i = i + 1;
    }
    assert(values.take(values.len() as int) =~= values);
    Some(total)
}

/// Where a day stands in a calendar.
fn day_index(days: &[TradingDay], day: &TradingDay) -> (r: Option<usize>)
    ensures
        match r {
            Some(d) => d < days@.len() && days@[d as int].number() == day.number(),
            None => !on_calendar(days@, day.number()),
        },
{
    let mut d: usize = 0;
    while d < days.len()
        invariant
            d <= days@.len(),
            forall|e: int| 0 <= e < d ==> (#[trigger] days@[e]).number() != day.number(),
        decreases days@.len() - d,
    {
        if days[d].is_same(day) {
            return Some(d);
        }
        d = d + 1;
    }
    None
}

proof fn lemma_unbookable(trades: Seq<ComponentTrade>, days: Seq<TradingDay>, count: int)
    requires
        0 <= count <= trades.len(),
        unbookable(trades.take(count), days) is Some,
    ensures
        unbookable(trades, days) == unbookable(trades.take(count), days),
    decreases trades.len(),
{
    if count == trades.len() {
        assert(trades.take(count) =~= trades);
    } else {
        assert(trades.drop_last().take(count) =~= trades.take(count));
        lemma_unbookable(trades.drop_last(), days, count);
    }
}

/// What does not trade on a day adds nothing up.
proof fn lemma_untraded_on(trades: Seq<ComponentTrade>, number: int, component: Seq<char>)
    requires
        !traded_on(trades, number, component),
    ensures
        units_on(trades, number, component) == 0,
    decreases trades.len(),
{
    if trades.len() > 0 {
        let fewer = trades.drop_last();
        if traded_on(fewer, number, component) {
            let i = choose|i: int|
                0 <= i < fewer.len() && (#[trigger] fewer[i]).component@ == component && local_day(
                    fewer[i].exit_timestamp_ns,
                ) == Some(number);
            assert(trades[i] == fewer[i]);
        }
        assert(trades[trades.len() - 1] == trades.last());
        lemma_untraded_on(fewer, number, component);
    }
}

/// One trade more trades on its own day, for its own component.
proof fn lemma_traded_step(trades: Seq<ComponentTrade>, number: int, component: Seq<char>)
    requires
        trades.len() > 0,
    ensures
        traded_on(trades, number, component) <==> traded_on(trades.drop_last(), number, component)
            || (local_day(trades.last().exit_timestamp_ns) == Some(number)
            && trades.last().component@ == component),
{
    let fewer = trades.drop_last();
    if traded_on(fewer, number, component) {
        let i = choose|i: int|
            0 <= i < fewer.len() && (#[trigger] fewer[i]).component@ == component && local_day(
                fewer[i].exit_timestamp_ns,
            ) == Some(number);
        assert(trades[i] == fewer[i]);
    }
    if traded_on(trades, number, component) {
        let i = choose|i: int|
            0 <= i < trades.len() && (#[trigger] trades[i]).component@ == component && local_day(
                trades[i].exit_timestamp_ns,
            ) == Some(number);
        if i < fewer.len() {
            assert(fewer[i] == trades[i]);
        }
    }
    assert(trades[trades.len() - 1] == trades.last());
}

/// Whether a row holds what the components that trade on a day add up to.
spec fn tallies(row: TextMap<i64>, trades: Seq<ComponentTrade>, number: int) -> bool {
    &&& row.well_formed()
    &&& forall|c: Seq<char>| #[trigger] row.has(c) <==> traded_on(trades, number, c)
    &&& forall|c: Seq<char>| #[trigger] row.has(c) ==> row.at(c) == units_on(trades, number, c)
}

/// A trade of another day leaves a row as it is.
proof fn lemma_tally_kept(row: TextMap<i64>, trades: Seq<ComponentTrade>, number: int)
    requires
        trades.len() > 0,
        tallies(row, trades.drop_last(), number),
        local_day(trades.last().exit_timestamp_ns) != Some(number),
    ensures
        tallies(row, trades, number),
{
    assert forall|c: Seq<char>| #[trigger] row.has(c) <==> traded_on(trades, number, c) by {
        lemma_traded_step(trades, number, c);
    }
}

/// A trade of the day changes the column of its component.
proof fn lemma_tally_changed(
    before: TextMap<i64>,
    row: TextMap<i64>,
    trades: Seq<ComponentTrade>,
    number: int,
)
    requires
        trades.len() > 0,
        tallies(before, trades.drop_last(), number),
        local_day(trades.last().exit_timestamp_ns) == Some(number),
        row.well_formed(),
        forall|c: Seq<char>| #[trigger]
            row.has(c) <==> before.has(c) || c == trades.last().component@,
        row.at(trades.last().component@) == units_on(trades, number, trades.last().component@),
        forall|c: Seq<char>|
            before.has(c) && c != trades.last().component@ ==> #[trigger] row.at(c) == before.at(
                c,
            ),
    ensures
        tallies(row, trades, number),
{
    assert forall|c: Seq<char>| #[trigger] row.has(c) <==> traded_on(trades, number, c) by {
        lemma_traded_step(trades, number, c);
        assert(before.has(c) <==> traded_on(trades.drop_last(), number, c));
    }
    assert forall|c: Seq<char>| #[trigger] row.has(c) implies row.at(c) == units_on(
        trades,
        number,
        c,
    ) by {
        if c != trades.last().component@ {
            assert(before.has(c));
            assert(row.at(c) == before.at(c));
        }
    }
}

/// Adds the columns that are asked for to a row, with nothing in them.
fn fill_columns(
    row: &mut TextMap<i64>,
    components: &[String],
    Ghost(trades): Ghost<Seq<ComponentTrade>>,
    Ghost(number): Ghost<int>,
)
    requires
        tallies(*old(row), trades, number),
    ensures
        final(row).well_formed(),
        lists_columns(final(row).keys(), components@, trades, number),
        final(row).values() == columns(final(row).keys(), trades, number),
{
    let mut i: usize = 0;
    while i < components.len()
        invariant
            i <= components@.len(),
            row.well_formed(),
            forall|c: Seq<char>| #[trigger]
                row.has(c) <==> traded_on(trades, number, c) || ordered::occurs(
                    components@.take(i as int),
                    c,
                ),
            forall|c: Seq<char>| #[trigger]
                row.has(c) ==> row.at(c) == units_on(trades, number, c),
        decreases components@.len() - i,
    {
        let ghost before = *row;
        let ghost name = components@[i as int]@;
        if !row.contains(components[i].as_str()) {
            proof {
                assert(!traded_on(trades, number, name));
                lemma_untraded_on(trades, number, name);
            }
            row.set(components[i].clone(), 0);
        }
        proof {
            let shorter = components@.take(i as int);
            let longer = components@.take(i + 1);
            assert forall|c: Seq<char>| #[trigger] row.has(c) <==> traded_on(trades, number, c)
                || ordered::occurs(longer, c) by {
                assert(before.has(c) <==> traded_on(trades, number, c) || ordered::occurs(
                    shorter,
                    c,
                ));
                if ordered::occurs(shorter, c) {
                    let j = ordered::place(shorter, c);
                    assert(longer[j]@ == c);
                }
                if ordered::occurs(longer, c) {
                    let j = ordered::place(longer, c);
                    if j < i {
                        assert(shorter[j]@ == c);
                    }
                }
                assert(longer[i as int]@ == name);
            }
            assert forall|c: Seq<char>| #[trigger] row.has(c) implies row.at(c) == units_on(
                trades,
                number,
                c,
            ) by {
                if c != name || before.has(name) {
                    assert(before.has(c));
                    assert(row.at(c) == before.at(c));
                }
            }
        }
        i = i + 1;
    }
    proof {
        assert(components@.take(components@.len() as int) =~= components@);
        row.lemma_increasing();
        let keys = row.keys();
        assert forall|c: Seq<char>| #[trigger] ordered::occurs(keys, c) <==> ordered::occurs(
            components@,
            c,
        ) || traded_on(trades, number, c) by {
            assert(row.has(c) <==> traded_on(trades, number, c) || ordered::occurs(
                components@,
                c,
            ));
        }
        assert forall|k: int| 0 <= k < keys.len() implies #[trigger] row.values()[k] == columns(
            keys,
            trades,
            number,
        )[k] by {
            ordered::lemma_place(keys, k);
            assert(row.has(keys[k]@));
            assert(row.at(keys[k]@) == units_on(trades, number, keys[k]@));
        }
        assert(row.values() =~= columns(keys, trades, number));
    }
}

/// Whether days are unique and increasing.
pub open spec fn increasing_days(days: Seq<TradingDay>) -> bool {
    forall|i: int, j: int|
        0 <= i < j < days.len() ==> (#[trigger] days[i]).number() < (#[trigger] days[j]).number()
}

/// The rows of a calendar on which nothing was booked.
fn empty_rows(count: usize) -> (r: Vec<TextMap<i64>>)
    ensures
        r@.len() == count,
        forall|d: int, number: int|
            0 <= d < count ==> #[trigger] tallies(r@[d], Seq::empty(), number),
{
    let mut rows: Vec<TextMap<i64>> = Vec::new();
    while rows.len() < count
        invariant
            rows@.len() <= count,
            forall|d: int, number: int|
                0 <= d < rows@.len() ==> #[trigger] tallies(rows@[d], Seq::empty(), number),
        decreases count - rows@.len(),
    {
        rows.push(TextMap::new());
    }
    rows
}

/// Books trades on a calendar: the return of each component on each day, and
/// their sums. A day has a column for every component that is asked for, and for
/// every other one that trades on it.
pub fn build_daily(
    evaluation_days: &[TradingDay],
    components: &[String],
    trades: &[ComponentTrade],
) -> (r: Result<Vec<DailyReturn>, FixedCapitalError>)
    requires
        increasing_days(evaluation_days@),
    ensures
        is_booked(r, evaluation_days@, components@, trades@),
{
    let ghost days = evaluation_days@;
    let mut rows: Vec<TextMap<i64>> = empty_rows(evaluation_days.len());
    let mut i: usize = 0;
    assert(trades@.take(0) =~= Seq::<ComponentTrade>::empty());
    while i < trades.len()
        invariant
            i <= trades@.len(),
            days == evaluation_days@,
            increasing_days(days),
            rows@.len() == days.len(),
            unbookable(trades@.take(i as int), days) is None,
            forall|e: int|
                0 <= e < rows@.len() ==> tallies(
                    #[trigger] rows@[e],
                    trades@.take(i as int),
                    days[e].number(),
                ),
        decreases trades@.len() - i,
    {
        let ghost shorter = trades@.take(i as int);
        let ghost longer = trades@.take(i + 1);
        proof {
            assert(longer.drop_last() =~= shorter);
            assert(longer.last() == trades@[i as int]);
        }
        let day: TradingDay = match trading_day(trades[i].exit_timestamp_ns) {
            Ok(day) => day,
            Err(error) => {
                proof {
                    lemma_unbookable(trades@, days, i + 1);
                }
                return Err(error);
            },
        };
        let d: usize = match day_index(evaluation_days, &day) {
            Some(d) => d,
            None => {
                proof {
                    lemma_unbookable(trades@, days, i + 1);
                }
                return Err(FixedCapitalError::ExitOutsideCalendar(day));
            },
        };
        let ghost number = day.number();
        let ghost name = trades@[i as int].component@;
        let ghost before = rows@;
        let value: i64 = match rows[d].get(trades[i].component.as_str()) {
            Some(value) => *value,
            None => 0,
        };
        proof {
            assert(tallies(before[d as int], shorter, number));
            if !before[d as int].has(name) {
                lemma_untraded_on(shorter, number, name);
            }
            assert(value == units_on(shorter, number, name));
            assert(on_calendar(days, number));
        }
        match value.checked_add(trades[i].weighted_return_units) {
            None => {
                proof {
                    lemma_unbookable(trades@, days, i + 1);
                }
                return Err(FixedCapitalError::FixedPointOverflow);
            },
            Some(next) => {
                let row: &mut TextMap<i64> = &mut rows[d];
                row.set(trades[i].component.clone(), next);
                proof {
                    assert forall|e: int| 0 <= e < rows@.len() implies tallies(
                        #[trigger] rows@[e],
                        longer,
                        days[e].number(),
                    ) by {
                        assert(tallies(before[e], shorter, days[e].number()));
                        if e == d {
                            lemma_tally_changed(before[e], rows@[e], longer, number);
                        } else {
                            if e < d {
                                assert(days[e].number() < days[d as int].number());
                            } else {
                                assert(days[d as int].number() < days[e].number());
                            }
                            lemma_tally_kept(rows@[e], longer, days[e].number());
                        }
                    }
                }
            },
        }
        i = i + 1;
    }
    assert(trades@.take(trades@.len() as int) =~= trades@);
    let mut d: usize = 0;
    while d < evaluation_days.len()
        invariant
            d <= days.len(),
            days == evaluation_days@,
            rows@.len() == days.len(),
            forall|e: int|
                d <= e < rows@.len() ==> tallies(
                    #[trigger] rows@[e],
                    trades@,
                    days[e].number(),
                ),
            forall|e: int|
                0 <= e < d ==> is_row(#[trigger] rows@[e], components@, trades@, days[e].number()),
        decreases days.len() - d,
    {
        let ghost before = rows@;
        let row: &mut TextMap<i64> = &mut rows[d];
        fill_columns(row, components, Ghost(trades@), Ghost(days[d as int].number()));
        proof {
            assert forall|e: int| d < e < rows@.len() implies tallies(
                #[trigger] rows@[e],
                trades@,
                days[e].number(),
            ) by {
                assert(rows@[e] == before[e]);
            }
            assert forall|e: int| 0 <= e < d + 1 implies is_row(
                #[trigger] rows@[e],
                components@,
                trades@,
                days[e].number(),
            ) by {
                if e < d {
                    assert(rows@[e] == before[e]);
                }
            }
        }
        d = d + 1;
    }
    let ghost all = rows@;
    let ghost keys = all.map_values(|row: TextMap<i64>| row.keys());
    proof {
        assert forall|e: int| 0 <= e < days.len() implies lists_columns(
            #[trigger] keys[e],
            components@,
            trades@,
            days[e].number(),
        ) by {
            assert(is_row(all[e], components@, trades@, days[e].number()));
        }
        assert(lists_calendar(keys, days, components@, trades@));
    }
    let mut daily: Vec<DailyReturn> = Vec::new();
    for row in it: rows
        invariant
            it.seq() == all,
            days == evaluation_days@,
            all.len() == days.len(),
            keys == all.map_values(|row: TextMap<i64>| row.keys()),
            forall|e: int|
                0 <= e < days.len() ==> is_row(
                    #[trigger] all[e],
                    components@,
                    trades@,
                    days[e].number(),
                ),
            lists_calendar(keys, days, components@, trades@),
            unbookable(trades@, days) is None,
            daily@.len() == it.index(),
            are_daily(daily@, days, keys, trades@),
    {
        let at: usize = daily.len();
        assert(row == all[it.index()]);
        assert(is_row(all[it.index()], components@, trades@, days[it.index()].number()));
        match checked_sum(&row) {
            None => {
                assert(!summable(columns(keys[it.index()], trades@, days[it.index()].number())));
                return Err(FixedCapitalError::FixedPointOverflow);
            },
            Some(portfolio_return_units) => {
                let ghost before = daily@;
                daily.push(
                    DailyReturn {
                        day: evaluation_days[at],
                        component_return_units: row,
                        portfolio_return_units,
                    },
                );
                proof {
                    let last = it.index();
                    assert(keys[last] == row.keys());
                    assert(is_daily(daily@[last], days[last], keys[last], trades@));
                    assert forall|e: int| 0 <= e < daily@.len() implies is_daily(
                        #[trigger] daily@[e],
                        days[e],
                        keys[e],
                        trades@,
                    ) && summable(columns(keys[e], trades@, days[e].number())) by {
                        if e < last {
                            assert(daily@[e] == before[e]);
                        }
                    }
                    assert(are_daily(daily@, days, keys, trades@));
                }
            },
        }
    }
    proof {
        assert forall|e: int| 0 <= e < days.len() implies summable(
            columns(#[trigger] keys[e], trades@, days[e].number()),
        ) by {
            assert(is_daily(daily@[e], days[e], keys[e], trades@));
        }
    }
    Ok(daily)
}

/// Whether all rows so far are those of their days, and can be summed.
spec fn are_daily(
    daily: Seq<DailyReturn>,
    days: Seq<TradingDay>,
    keys: Seq<Seq<String>>,
    trades: Seq<ComponentTrade>,
) -> bool {
    forall|e: int|
        0 <= e < daily.len() ==> is_daily(#[trigger] daily[e], days[e], keys[e], trades)
            && summable(columns(keys[e], trades, days[e].number()))
}

/// Whether a row is the finished one of a day.
spec fn is_row(
    row: TextMap<i64>,
    components: Seq<String>,
    trades: Seq<ComponentTrade>,
    number: int,
) -> bool {
    &&& row.well_formed()
    &&& lists_columns(row.keys(), components, trades, number)
    &&& row.values() == columns(row.keys(), trades, number)
}

} // verus!
