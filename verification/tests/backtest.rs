use bullet::backtest::{run_dual_moving_average, BacktestError, DualMovingAverage};
use bullet::binary64::Binary64;
use bullet::market::{Bar, Price, Quantity};

fn of(value: f64) -> Binary64 {
    Binary64::from_bits(value.to_bits())
}

fn back(value: Binary64) -> f64 {
    f64::from_bits(value.to_bits())
}

fn bar(timestamp_ns: u64, open: f64, close: f64) -> Bar {
    Bar::new(
        timestamp_ns,
        Price::new(of(open)).expect("test open is valid"),
        Price::new(of(close)).expect("test close is valid"),
    )
}

#[test]
fn long_flat_strategy_fills_at_the_next_bar_open() {
    let bars = [
        bar(1, 10.0, 10.0),
        bar(2, 11.0, 11.0),
        bar(3, 12.0, 12.0),
        bar(4, 10.0, 10.0),
        bar(5, 13.0, 9.0),
    ];
    let strategy = DualMovingAverage::new(2, 3).expect("windows are valid");
    let quantity = Quantity::new(1).expect("quantity is valid");

    let result = run_dual_moving_average(&bars, strategy, quantity)
        .expect("backtest runs on valid bars");

    assert_eq!(result.bars, 5);
    assert_eq!(result.fills, 2);
    assert_eq!(result.ending_position, 0);
    assert_eq!(back(result.realized_pnl), 3.0);
    assert_eq!(back(result.mark_to_market_pnl), 3.0);
}

#[test]
fn strategy_requires_fast_window_smaller_than_slow_window() {
    assert!(DualMovingAverage::new(3, 3).is_err());
    assert!(DualMovingAverage::new(0, 3).is_err());
}

#[test]
fn windows_are_refused_with_their_reason() {
    assert_eq!(
        DualMovingAverage::new(0, 3).err().map(|error| error.to_text()),
        Some(BacktestError::ZeroWindow.to_text())
    );
    let equal = DualMovingAverage::new(3, 3).err().map(|error| error.to_text());
    assert!(equal.is_some());
    assert_ne!(equal, Some(BacktestError::ZeroWindow.to_text()));
    assert!(DualMovingAverage::new(2, 3).is_ok());
}

#[test]
fn no_order_is_filled_before_the_slow_window_is_complete() {
    let bars = [bar(1, 10.0, 10.0), bar(2, 11.0, 11.0), bar(3, 12.0, 12.0)];
    let strategy = DualMovingAverage::new(2, 3).expect("windows are valid");
    let quantity = Quantity::new(1).expect("quantity is valid");
    let result = run_dual_moving_average(&bars, strategy, quantity).expect("the run ends");
    assert_eq!(result.bars, 3);
    assert_eq!(result.fills, 0);
    assert_eq!(result.ending_position, 0);
    assert_eq!(back(result.mark_to_market_pnl), 0.0);
}

#[test]
fn an_open_position_is_marked_at_the_last_close() {
    let bars = [
        bar(1, 10.0, 10.0),
        bar(2, 11.0, 11.0),
        bar(3, 12.0, 12.0),
        bar(4, 12.5, 13.0),
        bar(5, 13.0, 14.0),
    ];
    let strategy = DualMovingAverage::new(2, 3).expect("windows are valid");
    let quantity = Quantity::new(4).expect("quantity is valid");
    let result = run_dual_moving_average(&bars, strategy, quantity).expect("the run ends");
    assert_eq!(result.fills, 1);
    assert_eq!(result.ending_position, 4);
    assert_eq!(back(result.mark_to_market_pnl), 4.0 * (14.0 - 12.5));
}

#[test]
fn a_close_takes_effect_at_the_next_open() {
    let run = |last_close: f64| {
        let bars = [
            bar(1, 10.0, 10.0),
            bar(2, 11.0, 11.0),
            bar(3, 12.0, 12.0),
            bar(4, 10.0, last_close),
        ];
        run_dual_moving_average(
            &bars,
            DualMovingAverage::new(2, 3).expect("windows are valid"),
            Quantity::new(1).expect("quantity is valid"),
        )
        .expect("the run ends")
    };
    let (low, high) = (run(1.0), run(100.0));
    assert_eq!(low.fills, 1);
    assert_eq!(low.fills, high.fills);
    assert_eq!(low.ending_position, high.ending_position);
    assert_eq!(low.realized_pnl, high.realized_pnl);
}
