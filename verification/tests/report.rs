use bullet::binary64::Binary64;
use bullet::ordered::TextMap;
use bullet::report::{BacktestReport, Performance};

fn of(value: f64) -> Binary64 {
    Binary64::from_bits(value.to_bits())
}

#[test]
fn a_report_has_its_lines_in_order() {
    let mut ending_positions = TextMap::new();
    ending_positions.set("TEST".to_owned(), -1);
    ending_positions.set("IM8888".to_owned(), 2);
    let report = BacktestReport {
        bars: 9,
        data_size_bytes: 1_234,
        runtime_ms: 5,
        fills: 4,
        unfilled_orders: 1,
        round_trips: 2,
        fees_paid: of(6.0),
        slippage_paid: of(0.0),
        ending_positions,
        performance: Performance {
            initial_equity: of(100.0),
            final_equity: of(90.0),
            cumulative_return: of(-0.1),
            annualized_return: None,
            annualized_sharpe: Some(of(-1.5)),
            max_drawdown: of(-0.123_456_75),
            return_drawdown_ratio: None,
            daily_observations: 3,
        },
    };
    assert_eq!(
        report.lines(77),
        [
            "bars: 9",
            "data_size_bytes: 1234",
            "runtime_ms: 5",
            "peak_rss_bytes: 77",
            "fills: 4",
            "unfilled_orders: 1",
            "round_trips: 2",
            "fees_paid: 6.000000",
            "slippage_paid: 0.000000",
            "ending_position.IM8888: 2",
            "ending_position.TEST: -1",
            "initial_equity: 100.000000",
            "final_equity: 90.000000",
            "cumulative_return: -0.100000",
            "annualized_return: n/a",
            "annualized_sharpe: -1.500000",
            &format!("max_drawdown: {:.6}", -0.123_456_75),
            "return_drawdown_ratio: n/a",
            "daily_observations: 3",
        ]
    );
}
