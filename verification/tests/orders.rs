use bullet::binary64::Binary64;
use bullet::execution::{fill_at_next_open, ExecutionError, Fill, Order, Side};
use bullet::features::simple_moving_average;
use bullet::market::Price;
use bullet::ml::FeatureVector;
use bullet::portfolio::Position;
use bullet::strategy::{threshold_signal, Signal};

#[test]
fn fills_only_at_a_later_open() {
    let order = Order {
        id: 7,
        created_sequence: 4,
        side: Side::Buy,
        quantity: 3,
    };
    assert_eq!(
        fill_at_next_open(order, 4, 100),
        Err(ExecutionError::NonFutureOpen {
            created_sequence: 4,
            open_sequence: 4,
        })
    );
    assert_eq!(fill_at_next_open(order, 5, 101).unwrap().price, 101);
}

#[test]
fn an_order_for_nothing_is_not_filled() {
    let order = Order {
        id: 7,
        created_sequence: 4,
        side: Side::Sell,
        quantity: 0,
    };
    assert_eq!(
        fill_at_next_open(order, 5, 100),
        Err(ExecutionError::EmptyOrder)
    );
}

#[test]
fn calculates_latest_window_average() {
    assert_eq!(simple_moving_average(&[10, 20, 30], 2), Some(25));
}

#[test]
fn an_average_needs_a_whole_window() {
    assert_eq!(simple_moving_average(&[10, 20, 30], 4), None);
    assert_eq!(simple_moving_average(&[10, 20, 30], 3), Some(20));
    assert_eq!(simple_moving_average(&[1, 2], 2), Some(1));
}

#[test]
fn opposite_fills_leave_a_position_where_it_was() {
    let fill = Fill {
        order_id: 1,
        sequence: 1,
        price: 100,
        quantity: 3,
    };
    let mut position = Position::default();
    position.apply(Side::Sell, fill);
    assert_eq!(position.quantity, -3);
    position.apply(Side::Buy, fill);
    assert_eq!(position.quantity, 0);
}

#[test]
fn a_threshold_is_bought_above_and_sold_below() {
    let price = |value: u64| Price::new(Binary64::from_u64(value)).expect("price is positive");
    assert_eq!(threshold_signal(price(11), price(10)), Signal::Buy);
    assert_eq!(threshold_signal(price(9), price(10)), Signal::Sell);
    assert_eq!(threshold_signal(price(10), price(10)), Signal::Hold);
}

#[test]
fn features_are_kept_as_they_are() {
    let values = vec![Binary64::from_u64(1), Binary64::from_u64(2)];
    assert_eq!(FeatureVector::new(values.clone()).values, values);
}
