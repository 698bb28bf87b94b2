use std::collections::{BTreeMap, BTreeSet};

use bullet::binary64::Binary64;
use bullet::fixed_capital::daily::build_daily;
use bullet::fixed_capital::fixed_point::{fixed_string, to_fixed};
use bullet::fixed_capital::replay::ReplayState;
use bullet::fixed_capital::report::{
    censored_header, censored_record, daily_header, daily_record, trade_header, trade_record,
};
use bullet::fixed_capital::{
    run_fixed_capital_history, run_fixed_capital_history_inner, ExitPlan, ExposureOrder,
    ExposureSide, FixedCapitalContext, FixedCapitalError, FixedCapitalStrategy, HistoryBar,
    InstrumentHistory, ScheduledFill, TimestampBar, TradingDay,
};
use bullet::ordered::TextSet;

fn of(value: f64) -> Binary64 {
    Binary64::from_bits(value.to_bits())
}

fn back(value: Binary64) -> f64 {
    f64::from_bits(value.to_bits())
}

const MINUTE: u64 = 60_000_000_000;
const DAY: u64 = 86_400_000_000_000;
const SHANGHAI: u64 = 8 * 60 * MINUTE;

fn timestamp(day: u64, hour: u64, minute: u64) -> u64 {
    day * DAY + (hour * 60 + minute) * MINUTE - SHANGHAI
}

fn bar(timestamp_ns: u64, open: f64, high: f64, low: f64, close: f64) -> HistoryBar {
    HistoryBar {
        timestamp_ns,
        open: of(open),
        high: of(high),
        low: of(low),
        close: of(close),
        volume: of(10.0),
        money: of(1_000.0),
        open_interest: of(20.0),
    }
}

fn day(day: u32) -> TradingDay {
    TradingDay::new(1970, 1, day).expect("fixture date is valid")
}

#[derive(Default)]
struct FixtureStrategy {
    orders: Vec<(u64, ExposureOrder)>,
    callbacks: Vec<(u64, Vec<String>, Vec<f64>)>,
}

impl FixedCapitalStrategy for FixtureStrategy {
    fn on_timestamp(
        &mut self,
        context: FixedCapitalContext<'_>,
    ) -> Result<Vec<ExposureOrder>, String> {
        self.callbacks.push((
            context.timestamp_ns,
            context
                .bars
                .iter()
                .map(|value| value.instrument.to_owned())
                .collect(),
            context
                .bars
                .iter()
                .map(|value| back(value.bar.close))
                .collect(),
        ));
        let split = self
            .orders
            .partition_point(|(timestamp_ns, _)| *timestamp_ns <= context.timestamp_ns);
        let due = self.orders.drain(..split).collect::<Vec<_>>();
        if due
            .iter()
            .any(|(timestamp_ns, _)| *timestamp_ns != context.timestamp_ns)
        {
            return Err("fixture missed its causal signal timestamp".to_owned());
        }
        Ok(due.into_iter().map(|(_, order)| order).collect())
    }
}

fn order(
    id: &str,
    component: &str,
    instrument: &str,
    side: ExposureSide,
    exit: ExitPlan,
    cost_fraction: f64,
    component_scale: f64,
    instrument_weight: f64,
) -> ExposureOrder {
    ExposureOrder {
        id: id.to_owned(),
        component: component.to_owned(),
        instrument: instrument.to_owned(),
        setup: "fixture".to_owned(),
        side,
        component_scale: of(component_scale),
        instrument_weight: of(instrument_weight),
        exit,
        cost_fraction: of(cost_fraction),
    }
}

#[test]
fn batches_symbols_before_cross_sectional_callback_and_never_exposes_future_bars() {
    let first = timestamp(0, 9, 31);
    let second = timestamp(0, 9, 32);
    let histories = vec![
        InstrumentHistory {
            instrument: "B".to_owned(),
            bars: vec![
                bar(first, 200.0, 201.0, 199.0, 200.0),
                bar(second, 220.0, 221.0, 219.0, 220.0),
            ],
        },
        InstrumentHistory {
            instrument: "A".to_owned(),
            bars: vec![
                bar(first, 100.0, 101.0, 99.0, 100.0),
                bar(second, 110.0, 111.0, 109.0, 110.0),
            ],
        },
    ];
    let mut strategy = FixtureStrategy::default();

    run_fixed_capital_history(&[day(1)], &histories, 0, &mut strategy)
        .expect("fixture replay completes");

    assert_eq!(strategy.callbacks.len(), 2);
    assert_eq!(strategy.callbacks[0].0, first);
    assert_eq!(strategy.callbacks[0].1, vec!["A", "B"]);
    assert_eq!(strategy.callbacks[0].2, vec![100.0, 200.0]);
    assert!(!strategy.callbacks[0].2.contains(&220.0));
}

#[test]
fn keeps_fractional_overlapping_components_and_canonical_daily_sum() {
    let signal = timestamp(0, 9, 31);
    let entry = timestamp(0, 9, 32);
    let exit = timestamp(0, 9, 33);
    let histories = vec![InstrumentHistory {
        instrument: "A".to_owned(),
        bars: vec![
            bar(signal, 100.0, 100.0, 100.0, 100.0),
            bar(entry, 100.0, 100.0, 100.0, 100.0),
            bar(exit, 110.0, 110.0, 110.0, 110.0),
        ],
    }];
    let mut strategy = FixtureStrategy {
        orders: vec![
            (
                signal,
                order(
                    "left",
                    "left_component",
                    "A",
                    ExposureSide::Long,
                    ExitPlan::At {
                        timestamp_ns: exit,
                        fill: ScheduledFill::Open,
                    },
                    0.0,
                    0.000008,
                    0.125,
                ),
            ),
            (
                signal,
                order(
                    "right",
                    "right_component",
                    "A",
                    ExposureSide::Short,
                    ExitPlan::At {
                        timestamp_ns: exit,
                        fill: ScheduledFill::Close,
                    },
                    0.000123,
                    0.1,
                    0.25,
                ),
            ),
        ],
        ..FixtureStrategy::default()
    };

    let result = run_fixed_capital_history(&[day(1)], &histories, 0, &mut strategy)
        .expect("overlapping replay completes");

    assert_eq!(result.trades.len(), 2);
    assert_eq!(result.trades[0].weighted_return_units, 100_000);
    assert_eq!(result.trades[1].weighted_return_units, -2_502_767_500);
    assert_eq!(
        result.daily_returns[0].portfolio_return_units,
        -2_502_667_500
    );
    assert_eq!(back(result.daily_returns[0].portfolio_return()), -0.0025026675);
}

#[test]
fn supports_scheduled_close_and_gap_aware_pre_registered_stop() {
    let signal = timestamp(0, 9, 31);
    let entry = timestamp(0, 9, 32);
    let middle = timestamp(0, 9, 33);
    let scheduled = timestamp(0, 9, 34);
    let histories = vec![InstrumentHistory {
        instrument: "A".to_owned(),
        bars: vec![
            bar(signal, 100.0, 101.0, 99.0, 100.0),
            bar(entry, 100.0, 101.0, 99.0, 100.0),
            bar(middle, 94.0, 96.0, 93.0, 95.0),
            bar(scheduled, 110.0, 111.0, 109.0, 110.0),
        ],
    }];
    let mut strategy = FixtureStrategy {
        orders: vec![
            (
                signal,
                order(
                    "stop",
                    "stop_component",
                    "A",
                    ExposureSide::Long,
                    ExitPlan::StopOrAt {
                        stop_price: of(95.0),
                        timestamp_ns: scheduled,
                        fill: ScheduledFill::Close,
                    },
                    0.000246,
                    1.0,
                    1.0,
                ),
            ),
            (
                signal,
                order(
                    "close",
                    "close_component",
                    "A",
                    ExposureSide::Long,
                    ExitPlan::At {
                        timestamp_ns: scheduled,
                        fill: ScheduledFill::Close,
                    },
                    0.000369,
                    1.0,
                    1.0,
                ),
            ),
        ],
        ..FixtureStrategy::default()
    };

    let result = run_fixed_capital_history(&[day(1)], &histories, 0, &mut strategy)
        .expect("stop and close replay completes");
    let by_id = result
        .trades
        .iter()
        .map(|trade| (trade.id.as_str(), trade))
        .collect::<BTreeMap<_, _>>();

    assert_eq!(by_id["stop"].exit_timestamp_ns, middle);
    assert_eq!(back(by_id["stop"].exit_price), 94.0);
    assert_eq!(by_id["stop"].net_return_units, -60_231_240_000);
    assert_eq!(by_id["close"].exit_timestamp_ns, scheduled);
    assert_eq!(back(by_id["close"].exit_price), 110.0);
    assert_eq!(by_id["close"].net_return_units, 99_594_100_000);
}

#[test]
fn a_stop_crossed_during_the_entry_bar_exits_at_the_adverse_open() {
    let signal = timestamp(0, 9, 31);
    let entry = timestamp(0, 9, 32);
    let following = timestamp(0, 9, 33);
    let scheduled = timestamp(0, 9, 34);
    let histories = vec![InstrumentHistory {
        instrument: "A".to_owned(),
        bars: vec![
            bar(signal, 100.0, 100.0, 100.0, 100.0),
            bar(entry, 90.0, 91.0, 89.0, 90.0),
            bar(following, 89.0, 90.0, 88.0, 89.0),
            bar(scheduled, 100.0, 100.0, 100.0, 100.0),
        ],
    }];
    let mut strategy = FixtureStrategy {
        orders: vec![(
            signal,
            order(
                "entry-gap-stop",
                "component",
                "A",
                ExposureSide::Long,
                ExitPlan::StopOrAt {
                    stop_price: of(95.0),
                    timestamp_ns: scheduled,
                    fill: ScheduledFill::Open,
                },
                0.0,
                1.0,
                1.0,
            ),
        )],
        ..FixtureStrategy::default()
    };

    let result = run_fixed_capital_history(&[day(1)], &histories, 0, &mut strategy)
        .expect("entry-gap stop replay completes");

    assert_eq!(back(result.trades[0].entry_price), 90.0);
    assert_eq!(result.trades[0].exit_timestamp_ns, entry);
    assert_eq!(back(result.trades[0].exit_price), 90.0);
}

#[test]
fn accepts_component_local_zero_half_round_trip_and_combined_costs() {
    let signal = timestamp(0, 9, 31);
    let entry = timestamp(0, 9, 32);
    let exit = timestamp(0, 9, 33);
    let histories = vec![InstrumentHistory {
        instrument: "A".to_owned(),
        bars: vec![
            bar(signal, 100.0, 100.0, 100.0, 100.0),
            bar(entry, 100.0, 100.0, 100.0, 100.0),
            bar(exit, 100.0, 100.0, 100.0, 100.0),
        ],
    }];
    let mut strategy = FixtureStrategy {
        orders: [0.0, 0.000123, 0.000246, 0.000369]
            .into_iter()
            .enumerate()
            .map(|(index, cost)| {
                (
                    signal,
                    order(
                        &format!("cost-{index}"),
                        "cost_component",
                        "A",
                        ExposureSide::Long,
                        ExitPlan::At {
                            timestamp_ns: exit,
                            fill: ScheduledFill::Open,
                        },
                        cost,
                        1.0,
                        1.0,
                    ),
                )
            })
            .collect(),
        ..FixtureStrategy::default()
    };

    let result = run_fixed_capital_history(&[day(1)], &histories, 0, &mut strategy)
        .expect("cost replay completes");
    assert_eq!(
        result
            .trades
            .iter()
            .map(|trade| trade.net_return_units)
            .collect::<Vec<_>>(),
        vec![0, -123_000_000, -246_000_000, -369_000_000]
    );
}

#[test]
fn hard_fails_unknown_instrument_duplicate_id_and_skipped_scheduled_bar() {
    let signal = timestamp(0, 9, 31);
    let entry = timestamp(0, 9, 32);
    let missing = timestamp(0, 9, 33);
    let later = timestamp(0, 9, 34);
    let histories = vec![InstrumentHistory {
        instrument: "A".to_owned(),
        bars: vec![
            bar(signal, 100.0, 100.0, 100.0, 100.0),
            bar(entry, 100.0, 100.0, 100.0, 100.0),
            bar(later, 100.0, 100.0, 100.0, 100.0),
        ],
    }];
    let make = |id: &str, instrument: &str| {
        order(
            id,
            "component",
            instrument,
            ExposureSide::Long,
            ExitPlan::At {
                timestamp_ns: missing,
                fill: ScheduledFill::Open,
            },
            0.0,
            1.0,
            1.0,
        )
    };

    let mut unknown = FixtureStrategy {
        orders: vec![(signal, make("unknown", "B"))],
        ..FixtureStrategy::default()
    };
    assert!(matches!(
        run_fixed_capital_history(&[day(1)], &histories, 0, &mut unknown),
        Err(FixedCapitalError::UnknownInstrument(instrument)) if instrument == "B"
    ));

    let mut duplicate = FixtureStrategy {
        orders: vec![(signal, make("same", "A")), (signal, make("same", "A"))],
        ..FixtureStrategy::default()
    };
    assert!(matches!(
        run_fixed_capital_history(&[day(1)], &histories, 0, &mut duplicate),
        Err(FixedCapitalError::DuplicateExposure(id)) if id == "same"
    ));

    let mut absent = FixtureStrategy {
        orders: vec![(signal, make("absent", "A"))],
        ..FixtureStrategy::default()
    };
    assert!(matches!(
        run_fixed_capital_history(&[day(1)], &histories, 0, &mut absent),
        Err(FixedCapitalError::MissingScheduledBar { instrument, timestamp_ns })
            if instrument == "A" && timestamp_ns == missing
    ));
}

#[test]
fn writes_twelve_decimal_canonical_csv_and_sample_sharpe_metrics() {
    let signal = timestamp(0, 9, 31);
    let entry = timestamp(0, 9, 32);
    let first_exit = timestamp(0, 9, 33);
    let second_signal = timestamp(1, 9, 31);
    let second_entry = timestamp(1, 9, 32);
    let second_exit = timestamp(1, 9, 33);
    let histories = vec![InstrumentHistory {
        instrument: "A".to_owned(),
        bars: vec![
            bar(signal, 100.0, 100.0, 100.0, 100.0),
            bar(entry, 100.0, 100.0, 100.0, 100.0),
            bar(first_exit, 101.0, 101.0, 101.0, 101.0),
            bar(second_signal, 100.0, 100.0, 100.0, 100.0),
            bar(second_entry, 100.0, 100.0, 100.0, 100.0),
            bar(second_exit, 99.0, 99.0, 99.0, 99.0),
        ],
    }];
    let mut strategy = FixtureStrategy {
        orders: vec![
            (
                signal,
                order(
                    "positive",
                    "component",
                    "A",
                    ExposureSide::Long,
                    ExitPlan::At {
                        timestamp_ns: first_exit,
                        fill: ScheduledFill::Open,
                    },
                    0.0,
                    1.0,
                    1.0,
                ),
            ),
            (
                second_signal,
                order(
                    "negative",
                    "component",
                    "A",
                    ExposureSide::Long,
                    ExitPlan::At {
                        timestamp_ns: second_exit,
                        fill: ScheduledFill::Open,
                    },
                    0.0,
                    1.0,
                    1.0,
                ),
            ),
        ],
        ..FixtureStrategy::default()
    };
    let result = run_fixed_capital_history(&[day(1), day(2)], &histories, 0, &mut strategy)
        .expect("two-day replay completes");

    assert_eq!(result.performance.days, 2);
    assert_eq!(back(result.performance.mean_daily_return), 0.0);
    assert_eq!(back(result.performance.daily_volatility), 2.0_f64.sqrt() / 100.0);
    assert_eq!(back(result.performance.sharpe), 0.0);
    let mut daily = daily_header(&result.component_order).join(",") + "\n";
    for row in &result.daily_returns {
        daily += &(daily_record(&result.component_order, row).join(",") + "\n");
    }
    assert_eq!(
        daily,
        "day,component_return,portfolio_return\n1970-01-01,0.010000000000,0.010000000000\n1970-01-02,-0.010000000000,-0.010000000000\n"
    );
}

#[test]
fn configured_component_order_keeps_zero_trade_columns_and_rejects_unknown_components() {
    let signal = timestamp(0, 9, 31);
    let entry = timestamp(0, 9, 32);
    let exit = timestamp(0, 9, 33);
    let histories = vec![InstrumentHistory {
        instrument: "A".to_owned(),
        bars: vec![
            bar(signal, 100.0, 100.0, 100.0, 100.0),
            bar(entry, 100.0, 100.0, 100.0, 100.0),
            bar(exit, 101.0, 101.0, 101.0, 101.0),
        ],
    }];
    let strategy = || FixtureStrategy {
        orders: vec![(
            signal,
            order(
                "observed",
                "observed_component",
                "A",
                ExposureSide::Long,
                ExitPlan::At {
                    timestamp_ns: exit,
                    fill: ScheduledFill::Open,
                },
                0.0,
                1.0,
                1.0,
            ),
        )],
        ..FixtureStrategy::default()
    };
    let configured = vec!["zero_component".to_owned(), "observed_component".to_owned()];
    let mut accepted = strategy();
    let result = run_fixed_capital_history_inner(
        &[day(1)],
        Some(&configured),
        &histories,
        0,
        &mut accepted,
    )
    .expect("registered component replay completes");

    assert_eq!(result.component_order, configured);
    assert_eq!(
        result.daily_returns[0]
            .component_return_units
            .get("zero_component"),
        Some(&0)
    );

    let mut rejected = strategy();
    let error = run_fixed_capital_history_inner(
        &[day(1)],
        Some(&["zero_component".to_owned()]),
        &histories,
        0,
        &mut rejected,
    )
    .expect_err("unregistered component is rejected");
    assert!(matches!(
        error,
        FixedCapitalError::UnknownComponent(component)
            if component == "observed_component"
    ));
}

#[test]
fn future_bar_mutation_cannot_change_an_already_emitted_order() {
    struct FirstTimestampStrategy {
        first_order: Option<ExposureOrder>,
    }
    impl FixedCapitalStrategy for FirstTimestampStrategy {
        fn on_timestamp(
            &mut self,
            _context: FixedCapitalContext<'_>,
        ) -> Result<Vec<ExposureOrder>, String> {
            Ok(self.first_order.take().into_iter().collect())
        }
    }

    let signal = timestamp(0, 9, 31);
    let entry = timestamp(0, 9, 32);
    let exit = timestamp(0, 9, 33);
    let strategy_order = || {
        order(
            "causal",
            "component",
            "A",
            ExposureSide::Long,
            ExitPlan::At {
                timestamp_ns: exit,
                fill: ScheduledFill::Open,
            },
            0.0,
            1.0,
            1.0,
        )
    };
    let replay = |future_close: f64| {
        let histories = vec![InstrumentHistory {
            instrument: "A".to_owned(),
            bars: vec![
                bar(signal, 100.0, 100.0, 100.0, 100.0),
                bar(entry, 100.0, 100.0, 100.0, future_close),
                bar(exit, 110.0, 110.0, 110.0, 110.0),
            ],
        }];
        let mut strategy = FirstTimestampStrategy {
            first_order: Some(strategy_order()),
        };
        run_fixed_capital_history(&[day(1)], &histories, 0, &mut strategy)
            .expect("causal replay completes")
    };

    let left = replay(80.0);
    let right = replay(120.0);
    assert_eq!(left.trades, right.trades);
}

#[test]
fn final_pending_and_active_exposures_are_right_censored_in_id_order() {
    let signal = timestamp(0, 9, 31);
    let entry = timestamp(0, 9, 32);
    let future = timestamp(1, 9, 31);
    let histories = vec![InstrumentHistory {
        instrument: "A".to_owned(),
        bars: vec![
            bar(signal, 100.0, 100.0, 100.0, 100.0),
            bar(entry, 100.0, 100.0, 100.0, 100.0),
        ],
    }];
    let mut strategy = FixtureStrategy {
        orders: vec![
            (
                signal,
                order(
                    "z-active",
                    "component",
                    "A",
                    ExposureSide::Long,
                    ExitPlan::At {
                        timestamp_ns: future,
                        fill: ScheduledFill::Open,
                    },
                    0.0,
                    1.0,
                    1.0,
                ),
            ),
            (
                entry,
                order(
                    "a-pending",
                    "component",
                    "A",
                    ExposureSide::Long,
                    ExitPlan::At {
                        timestamp_ns: future,
                        fill: ScheduledFill::Open,
                    },
                    0.0,
                    1.0,
                    1.0,
                ),
            ),
        ],
        ..FixtureStrategy::default()
    };

    let result = run_fixed_capital_history(&[day(1)], &histories, 0, &mut strategy)
        .expect("right-censored replay completes");

    assert!(result.trades.is_empty());
    assert_eq!(
        result
            .censored
            .iter()
            .map(|value| (value.id.as_str(), value.entry_timestamp_ns))
            .collect::<Vec<_>>(),
        vec![("a-pending", None), ("z-active", Some(entry))]
    );
}

#[test]
fn canonical_rounding_is_twelve_decimal_half_even_without_negative_zero() {
    assert_eq!(to_fixed(of(0.5e-12)).expect("finite value"), 0);
    assert_eq!(to_fixed(of(1.5e-12)).expect("finite value"), 2);
    assert_eq!(to_fixed(of(2.5e-12)).expect("finite value"), 2);
    assert_eq!(to_fixed(of(-0.5e-12)).expect("finite value"), 0);
    assert_eq!(to_fixed(of(-1.5e-12)).expect("finite value"), -2);
    assert_eq!(fixed_string(0), "0.000000000000");
}

#[test]
fn fixture_components_are_unique_for_stable_daily_columns() {
    let values = ["left", "right", "stop", "close", "cost"];
    assert_eq!(
        values.into_iter().collect::<BTreeSet<_>>().len(),
        values.len()
    );
}

fn three_bars() -> Vec<InstrumentHistory> {
    vec![InstrumentHistory {
        instrument: "A".to_owned(),
        bars: (31..=33)
            .map(|minute| bar(timestamp(0, 9, minute), 100.0, 100.0, 100.0, 100.0))
            .collect(),
    }]
}

fn plan(minute: u64) -> ExitPlan {
    ExitPlan::At {
        timestamp_ns: timestamp(0, 9, minute),
        fill: ScheduledFill::Open,
    }
}

fn replay_one(change: &dyn Fn(&mut ExposureOrder)) -> Result<(), String> {
    let mut given = order("x", "c", "A", ExposureSide::Long, plan(33), 0.0, 1.0, 1.0);
    change(&mut given);
    let mut strategy = FixtureStrategy {
        orders: vec![(timestamp(0, 9, 31), given)],
        ..FixtureStrategy::default()
    };
    run_fixed_capital_history(&[day(1)], &three_bars(), 0, &mut strategy)
        .map(|_| ())
        .map_err(|error| error.to_text())
}

#[test]
fn orders_that_cannot_be_followed_are_refused() {
    assert_eq!(replay_one(&|_| {}), Ok(()));
    assert_eq!(
        replay_one(&|order| order.exit = plan(31)),
        Err("exposure `x` exits no later than its signal".to_owned())
    );
    assert_eq!(
        replay_one(&|order| order.exit = plan(32)),
        Err("exposure `x` exits no later than its entry".to_owned())
    );
    assert_eq!(
        replay_one(&|order| {
            order.exit = ExitPlan::StopOrAt {
                stop_price: of(0.0),
                timestamp_ns: timestamp(0, 9, 33),
                fill: ScheduledFill::Open,
            }
        }),
        Err("exposure `x` has an invalid or non-adverse stop".to_owned())
    );
    assert!(replay_one(&|order| order.id = String::new())
        .unwrap_err()
        .starts_with("invalid exposure order: "));
    assert!(replay_one(&|order| order.component_scale = of(f64::NAN))
        .unwrap_err()
        .starts_with("invalid exposure order: "));
}

#[test]
fn inputs_that_cannot_be_replayed_are_refused() {
    let run = |days: &[TradingDay], histories: &[InstrumentHistory]| {
        run_fixed_capital_history(days, histories, 0, &mut FixtureStrategy::default())
            .map(|_| ())
            .map_err(|error| error.to_text())
    };
    assert_eq!(run(&[day(1)], &three_bars()), Ok(()));
    assert!(run(&[], &three_bars()).is_err());
    assert!(run(&[day(2), day(1)], &three_bars()).is_err());
    let empty = InstrumentHistory {
        instrument: "A".to_owned(),
        bars: vec![],
    };
    assert_eq!(
        run(&[day(1)], &[empty]),
        Err("fixed-capital replay requires at least one bar".to_owned())
    );
    let mut stuck = three_bars();
    stuck[0].bars[2].timestamp_ns = timestamp(0, 9, 32);
    assert_eq!(
        run(&[day(1)], &stuck),
        Err("bars must strictly increase for A".to_owned())
    );
}

#[test]
fn a_failing_strategy_and_an_exit_outside_the_calendar_end_the_replay() {
    struct Failing;
    impl FixedCapitalStrategy for Failing {
        fn on_timestamp(
            &mut self,
            _context: FixedCapitalContext<'_>,
        ) -> Result<Vec<ExposureOrder>, String> {
            Err("no data".to_owned())
        }
    }
    assert_eq!(
        run_fixed_capital_history(&[day(1)], &three_bars(), 0, &mut Failing)
            .err()
            .map(|error| error.to_text()),
        Some("strategy failed: no data".to_owned())
    );
    let mut strategy = FixtureStrategy {
        orders: vec![(
            timestamp(0, 9, 31),
            order("x", "c", "A", ExposureSide::Long, plan(33), 0.0, 1.0, 1.0),
        )],
        ..FixtureStrategy::default()
    };
    assert_eq!(
        run_fixed_capital_history(&[day(2)], &three_bars(), 0, &mut strategy)
            .err()
            .map(|error| error.to_text()),
        Some("completed exposure exits outside evaluation calendar on 1970-01-01".to_owned())
    );
}

#[test]
fn amounts_beyond_the_fixed_point_are_refused() {
    assert!(matches!(
        to_fixed(of(f64::INFINITY)),
        Err(FixedCapitalError::FixedPointOverflow)
    ));
    assert!(to_fixed(of(f64::NAN)).is_err());
    assert_eq!(
        to_fixed(of(9_223_372.0)).ok(),
        Some(9_223_372_000_000_000_000)
    );
    assert!(to_fixed(of(9_223_373.0)).is_err());
    assert_eq!(fixed_string(-1), "-0.000000000001");
    assert_eq!(fixed_string(i64::MIN), "-9223372.036854775808");
    assert_eq!(fixed_string(1_500_000_000_000), "1.500000000000");
}

#[test]
fn a_replay_moves_on_one_answer_at_a_time() {
    let histories = three_bars();
    let shown = |at: usize| {
        vec![TimestampBar {
            instrument: &histories[0].instrument,
            bar: &histories[0].bars[at],
        }]
    };
    let mut instruments = TextSet::new();
    instruments.insert("A".to_owned());
    let mut state = ReplayState::new(instruments);
    let first = timestamp(0, 9, 31);
    state.before_callback(first, &shown(0)).unwrap();
    state
        .after_callback(
            first,
            &shown(0),
            Ok(vec![order(
                "x",
                "c",
                "A",
                ExposureSide::Short,
                plan(33),
                0.0,
                1.0,
                1.0,
            )]),
        )
        .unwrap();
    let second = timestamp(0, 9, 32);
    state.before_callback(second, &shown(1)).unwrap();
    assert_eq!(
        state
            .after_callback(second, &shown(1), Err("no answer".to_owned()))
            .err()
            .map(|error| error.to_text()),
        Some("strategy failed: no answer".to_owned())
    );
    let (pending, active, trades) = state.into_parts();
    assert!(pending.is_empty());
    assert_eq!(active.len(), 1);
    assert_eq!(active[0].entry_timestamp_ns, second);
    assert!(trades.is_empty());
}

#[test]
fn records_show_trades_and_censored_exposures() {
    let mut strategy = FixtureStrategy {
        orders: vec![
            (
                timestamp(0, 9, 31),
                order("x", "c", "A", ExposureSide::Short, plan(33), 0.25, 1.0, 0.5),
            ),
            (
                timestamp(0, 9, 33),
                order("y", "c", "A", ExposureSide::Long, plan(59), 0.0, 1.0, 1.0),
            ),
        ],
        ..FixtureStrategy::default()
    };
    let result = run_fixed_capital_history(&[day(1)], &three_bars(), 7, &mut strategy)
        .expect("replay completes");
    assert_eq!(result.bars, 3);
    assert_eq!(result.data_size_bytes, 7);
    let trade = trade_record(&result.trades[0]);
    assert_eq!(trade_header().len(), trade.len());
    assert_eq!(
        trade,
        [
            "x",
            "c",
            "A",
            "5460000000000",
            "5520000000000",
            "5580000000000",
            "fixture",
            "short",
            "100.000000000000",
            "100.000000000000",
            "scheduled_open",
            "0.250000000000",
            "1.000000000000",
            "0.500000000000",
            "-0.250000000000",
            "-0.125000000000",
        ]
    );
    let censored = censored_record(&result.censored[0]);
    assert_eq!(censored_header().len(), censored.len());
    assert_eq!(censored, ["y", "c", "A", "5580000000000", ""]);
    assert_eq!(result.performance.days, 1);
    assert_eq!(back(result.performance.ending_equity), 1.0 - 0.125);
    assert_eq!(back(result.performance.max_drawdown), 0.875 - 1.0);
    assert_eq!(result.performance.nonzero_days, 1);
}

#[test]
fn every_exposure_is_traded_or_censored_once() {
    let given = |id: &str, exit: u64| {
        order(id, "c", "A", ExposureSide::Long, plan(exit), 0.0, 1.0, 1.0)
    };
    let mut strategy = FixtureStrategy {
        orders: vec![
            (timestamp(0, 9, 31), given("traded", 33)),
            (timestamp(0, 9, 31), given("held", 59)),
            (timestamp(0, 9, 33), given("waiting", 59)),
        ],
        ..FixtureStrategy::default()
    };
    let result = run_fixed_capital_history(&[day(1)], &three_bars(), 0, &mut strategy)
        .expect("replay completes");
    let ids: BTreeSet<&str> = result
        .trades
        .iter()
        .map(|trade| trade.id.as_str())
        .chain(result.censored.iter().map(|left| left.id.as_str()))
        .collect();
    assert_eq!(ids, BTreeSet::from(["held", "traded", "waiting"]));
    assert_eq!(result.trades.len() + result.censored.len(), 3);
    assert_eq!(
        result
            .daily_returns
            .iter()
            .map(|row| row.portfolio_return_units)
            .sum::<i64>(),
        result
            .trades
            .iter()
            .map(|trade| trade.weighted_return_units)
            .sum::<i64>()
    );
}

#[test]
fn an_unregistered_component_is_refused_though_its_exposure_is_left() {
    let registered = ["c".to_owned()];
    let run = |component: &str, minute: u64| {
        let mut strategy = FixtureStrategy {
            orders: vec![(
                timestamp(0, 9, minute),
                order("x", component, "A", ExposureSide::Long, plan(59), 0.0, 1.0, 1.0),
            )],
            ..FixtureStrategy::default()
        };
        run_fixed_capital_history_inner(
            &[day(1)],
            Some(&registered),
            &three_bars(),
            0,
            &mut strategy,
        )
        .map(|result| result.component_order)
        .map_err(|error| error.to_text())
    };
    // Entered and never completed, and never entered.
    for minute in [31, 33] {
        assert_eq!(
            run("stranger", minute),
            Err("unregistered component `stranger`".to_owned())
        );
        assert_eq!(run("c", minute), Ok(registered.to_vec()));
    }
}

#[test]
fn counting_keeps_order_and_sign_and_stays_near() {
    let mut values = vec![
        -9_223_372.036, -1.0, -2.5e-12, -1.5e-12, -0.5e-12, -0.0, 0.0, 4.9e-13, 0.5e-12, 1.5e-12,
        2.5e-12, 0.1, 1.0 / 3.0, 7_123.5, 9_223_372.036_854_774,
    ];
    values.sort_by(f64::total_cmp);
    let counts: Vec<i64> = values
        .iter()
        .map(|value| to_fixed(of(*value)).expect("below the limit"))
        .collect();
    for pair in counts.windows(2) {
        assert!(pair[0] <= pair[1]);
    }
    for (value, count) in values.iter().zip(&counts) {
        assert_eq!(to_fixed(of(-value)).expect("below the limit"), -count);
    }
    assert_eq!(to_fixed(of(1.0 / 3.0)).ok(), Some(333_333_333_333));
}

#[test]
fn histories_and_results_can_be_copied() {
    let histories = three_bars();
    assert_eq!(histories.clone()[0].bars, histories[0].bars);
    let result = run_fixed_capital_history(&[day(1)], &histories, 0, &mut FixtureStrategy::default())
        .expect("replay completes");
    assert_eq!(result.clone(), result);
}

#[test]
fn a_day_has_columns_for_what_is_asked_for_and_for_what_trades() {
    let mut strategy = FixtureStrategy {
        orders: vec![(
            timestamp(0, 9, 31),
            order("x", "b", "A", ExposureSide::Short, plan(33), 0.5, 1.0, 1.0),
        )],
        ..FixtureStrategy::default()
    };
    let result = run_fixed_capital_history(&[day(1)], &three_bars(), 0, &mut strategy)
        .expect("replay completes");
    let rows = build_daily(
        &[day(1), day(2)],
        &["c".to_owned(), "a".to_owned(), "c".to_owned()],
        &result.trades,
    )
    .expect("the calendar holds the exit");
    let columns = |at: usize| {
        let row = &rows[at].component_return_units;
        (0..row.len())
            .map(|i| (row.key(i).clone(), *row.value(i)))
            .collect::<Vec<_>>()
    };
    let units = -500_000_000_000;
    assert_eq!(
        columns(0),
        [
            ("a".to_owned(), 0),
            ("b".to_owned(), units),
            ("c".to_owned(), 0)
        ]
    );
    assert_eq!(columns(1), [("a".to_owned(), 0), ("c".to_owned(), 0)]);
    assert_eq!(rows[0].portfolio_return_units, units);
    assert_eq!(rows[1].portfolio_return_units, 0);
}
