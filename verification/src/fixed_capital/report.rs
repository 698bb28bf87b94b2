//! The records of the canonical files: one text per field.

use super::daily::DailyReturn;
use super::fixed_point;
use super::{CensoredExposure, ComponentTrade, ExposureSide};
use crate::decimal;
use crate::text;
use vstd::prelude::*;

verus! {

/// The texts of a record.
pub open spec fn fields(record: Seq<String>) -> Seq<Seq<char>> {
    record.map_values(|field: String| field@)
}

impl ExposureSide {
    pub open spec fn name(self) -> Seq<char> {
        match self {
            ExposureSide::Long => "long"@,
            ExposureSide::Short => "short"@,
        }
    }

    pub fn to_text(&self) -> (r: String)
        ensures
            r@ == self.name(),
    {
        match self {
            ExposureSide::Long => "long".to_owned(),
            ExposureSide::Short => "short".to_owned(),
        }
    }
}

/// The fields of a trade.
pub open spec fn trade_fields(trade: ComponentTrade) -> Seq<Seq<char>> {
    seq![
        trade.id@,
        trade.component@,
        trade.instrument@,
        text::numeral(trade.signal_timestamp_ns as nat),
        text::numeral(trade.entry_timestamp_ns as nat),
        text::numeral(trade.exit_timestamp_ns as nat),
        trade.setup@,
        trade.side.name(),
        decimal::fixed(trade.entry_price, 12),
        decimal::fixed(trade.exit_price, 12),
        trade.exit_reason.name(),
        decimal::fixed(trade.cost_fraction, 12),
        decimal::fixed(trade.component_scale, 12),
        decimal::fixed(trade.instrument_weight, 12),
        fixed_point::fixed_digits(trade.net_return_units as int),
        fixed_point::fixed_digits(trade.weighted_return_units as int),
    ]
}

/// The names of the fields of a trade.
pub fn trade_header() -> (r: Vec<&'static str>)
    ensures
        r@ == seq![
            "id",
            "component",
            "instrument",
            "signal_timestamp_ns",
            "entry_timestamp_ns",
            "exit_timestamp_ns",
            "setup",
            "side",
            "entry_price",
            "exit_price",
            "exit_reason",
            "cost_fraction",
            "component_scale",
            "instrument_weight",
            "net_return",
            "weighted_return",
        ],
{
    vec![
        "id",
        "component",
        "instrument",
        "signal_timestamp_ns",
        "entry_timestamp_ns",
        "exit_timestamp_ns",
        "setup",
        "side",
        "entry_price",
        "exit_price",
        "exit_reason",
        "cost_fraction",
        "component_scale",
        "instrument_weight",
        "net_return",
        "weighted_return",
    ]
}

/// The record of a trade.
pub fn trade_record(trade: &ComponentTrade) -> (r: Vec<String>)
    ensures
        fields(r@) == trade_fields(*trade),
{
    let record: Vec<String> = vec![
        trade.id.clone(),
        trade.component.clone(),
        trade.instrument.clone(),
        text::numeral_text(trade.signal_timestamp_ns),
        text::numeral_text(trade.entry_timestamp_ns),
        text::numeral_text(trade.exit_timestamp_ns),
        trade.setup.clone(),
        trade.side.to_text(),
        decimal::fixed_text(trade.entry_price, 12),
        decimal::fixed_text(trade.exit_price, 12),
        trade.exit_reason.to_text(),
        decimal::fixed_text(trade.cost_fraction, 12),
        decimal::fixed_text(trade.component_scale, 12),
        decimal::fixed_text(trade.instrument_weight, 12),
        fixed_point::fixed_string(trade.net_return_units),
        fixed_point::fixed_string(trade.weighted_return_units),
    ];
    assert(fields(record@) =~= trade_fields(*trade));
    record
}

/// The names of the fields of a day: one for each component, in their order.
pub open spec fn daily_names(components: Seq<String>) -> Seq<Seq<char>> {
    seq!["day"@] + components.map_values(|component: String| component@ + "_return"@) + seq![
        "portfolio_return"@,
    ]
}

/// The fields of a day; a component without a value has zero.
pub open spec fn daily_fields(components: Seq<String>, row: DailyReturn) -> Seq<Seq<char>> {
    seq![crate::calendar::day_text(row.day@)] + components.map_values(
        |component: String|
            fixed_point::fixed_digits(
                if row.component_return_units.has(component@) {
                    row.component_return_units.at(component@) as int
                } else {
                    0
                },
            ),
    ) + seq![fixed_point::fixed_digits(row.portfolio_return_units as int)]
}

/// The names of the fields of a day.
pub fn daily_header(components: &[String]) -> (r: Vec<String>)
    ensures
        fields(r@) == daily_names(components@),
{
    let mut record: Vec<String> = Vec::new();
    record.push("day".to_owned());
    let mut i: usize = 0;
    let ghost middle = components@.map_values(|component: String| component@ + "_return"@);
    assert(fields(record@) =~= seq!["day"@] + middle.take(0));
    while i < components.len()
        invariant
            i <= components@.len(),
            middle == components@.map_values(|component: String| component@ + "_return"@),
            fields(record@) == seq!["day"@] + middle.take(i as int),
        decreases components@.len() - i,
    {
        let ghost before = record@;
        let mut name: String = components[i].clone();
        name.append("_return");
        record.push(name);
        assert(fields(record@) =~= fields(before).push(middle[i as int]));
        assert(fields(record@) =~= seq!["day"@] + middle.take(i + 1));
        i = i + 1;
    }
    record.push("portfolio_return".to_owned());
    assert(middle.take(middle.len() as int) =~= middle);
    assert(fields(record@) =~= daily_names(components@));
    record
}

/// The record of a day.
pub fn daily_record(components: &[String], row: &DailyReturn) -> (r: Vec<String>)
    requires
        row.component_return_units.well_formed(),
    ensures
        fields(r@) == daily_fields(components@, *row),
{
    let mut record: Vec<String> = Vec::new();
    record.push(row.day.to_text());
    let mut i: usize = 0;
    let ghost day = crate::calendar::day_text(row.day@);
    let ghost middle = components@.map_values(
        |component: String|
            fixed_point::fixed_digits(
                if row.component_return_units.has(component@) {
                    row.component_return_units.at(component@) as int
                } else {
                    0
                },
            ),
    );
    assert(fields(record@) =~= seq![day] + middle.take(0));
    while i < components.len()
        invariant
            i <= components@.len(),
            row.component_return_units.well_formed(),
            middle == components@.map_values(
                |component: String|
                    fixed_point::fixed_digits(
                        if row.component_return_units.has(component@) {
                            row.component_return_units.at(component@) as int
                        } else {
                            0
                        },
                    ),
            ),
            fields(record@) == seq![day] + middle.take(i as int),
        decreases components@.len() - i,
    {
        let ghost before = record@;
        let units: i64 = match row.component_return_units.get(components[i].as_str()) {
            Some(units) => *units,
            None => 0,
        };
        record.push(fixed_point::fixed_string(units));
        assert(fields(record@) =~= fields(before).push(middle[i as int]));
        assert(fields(record@) =~= seq![day] + middle.take(i + 1));
        i = i + 1;
    }
    record.push(fixed_point::fixed_string(row.portfolio_return_units));
    assert(middle.take(middle.len() as int) =~= middle);
    assert(fields(record@) =~= daily_fields(components@, *row));
    record
}

/// The fields of an unfinished exposure.
pub open spec fn censored_fields(value: CensoredExposure) -> Seq<Seq<char>> {
    seq![
        value.id@,
        value.component@,
        value.instrument@,
        text::numeral(value.signal_timestamp_ns as nat),
        match value.entry_timestamp_ns {
            Some(timestamp_ns) => text::numeral(timestamp_ns as nat),
            None => Seq::empty(),
        },
    ]
}

/// The names of the fields of an unfinished exposure.
pub fn censored_header() -> (r: Vec<&'static str>)
    ensures
        r@ == seq![
            "id",
            "component",
            "instrument",
            "signal_timestamp_ns",
            "entry_timestamp_ns",
        ],
{
    vec!["id", "component", "instrument", "signal_timestamp_ns", "entry_timestamp_ns"]
}

/// The record of an unfinished exposure.
pub fn censored_record(value: &CensoredExposure) -> (r: Vec<String>)
    ensures
        fields(r@) == censored_fields(*value),
{
    let entry: String = match value.entry_timestamp_ns {
        Some(timestamp_ns) => text::numeral_text(timestamp_ns),
        None => String::new(),
    };
    let record: Vec<String> = vec![
        value.id.clone(),
        value.component.clone(),
        value.instrument.clone(),
        text::numeral_text(value.signal_timestamp_ns),
        entry,
    ];
    assert(fields(record@) =~= censored_fields(*value));
    record
}

} // verus!
