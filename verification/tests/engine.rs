use bullet::binary64::Binary64;
use bullet::engine::{Engine, OrderState, ReducerError};
use bullet::market::{Event, Fill, Instrument, MarketTick, Order, Price, Quantity, Side};

fn instrument(value: &str) -> Instrument {
    Instrument::new(value).expect("a symbol is non-empty")
}

fn order(id: u64, symbol: &str) -> Order {
    Order::new(
        id,
        instrument(symbol),
        Side::Buy,
        Quantity::new(5).expect("quantity is non-zero"),
    )
}

fn tick(symbol: &str, price: u64) -> MarketTick {
    MarketTick {
        instrument: instrument(symbol),
        price: Price::new(Binary64::from_u64(price)).expect("price is non-zero"),
    }
}

#[test]
fn engine_assigns_sequence_and_reduces_an_order_to_filled() {
    let mut engine = Engine::default();
    let submitted = engine
        .dispatch_at(10, Event::OrderSubmitted(order(1, "AAPL")))
        .expect("new order is accepted");
    let filled = engine
        .dispatch_at(
            20,
            Event::OrderFilled(Fill {
                order_id: 1,
                price: Price::new(Binary64::from_u64(189)).expect("price is non-zero"),
            }),
        )
        .expect("pending order can fill");

    assert_eq!(submitted.sequence, 1);
    assert_eq!(filled.sequence, 2);
    assert_eq!(engine.events().len(), 2);
    assert!(matches!(
        engine.order_state(1),
        Some(OrderState::Filled { fill, .. }) if fill.price.value() == Binary64::from_u64(189)
    ));
}

#[test]
fn market_tick_fills_only_earlier_pending_orders_for_its_instrument() {
    let mut engine = Engine::default();
    engine
        .dispatch_at(10, Event::OrderSubmitted(order(2, "MSFT")))
        .expect("new order is accepted");
    engine
        .dispatch_at(11, Event::OrderSubmitted(order(1, "AAPL")))
        .expect("new order is accepted");

    let generated = engine
        .execute_market_tick_at(20, tick("AAPL", 189))
        .expect("a valid tick executes matching pending orders");

    assert_eq!(generated.len(), 2);
    assert_eq!(generated[0].sequence, 3);
    assert_eq!(generated[0].payload, Event::MarketTick(tick("AAPL", 189)));
    assert_eq!(generated[1].sequence, 4);
    assert_eq!(
        generated[1].payload,
        Event::OrderFilled(Fill {
            order_id: 1,
            price: Price::new(Binary64::from_u64(189)).expect("price is non-zero"),
        })
    );
    assert!(matches!(
        engine.order_state(1),
        Some(OrderState::Filled { fill, .. }) if fill.price.value() == Binary64::from_u64(189)
    ));
    assert!(matches!(
        engine.order_state(2),
        Some(OrderState::Pending(_))
    ));
}

#[test]
fn reducer_rejects_an_unknown_fill_without_recording_it() {
    let mut engine = Engine::default();
    let error = engine
        .dispatch_at(
            10,
            Event::OrderFilled(Fill {
                order_id: 99,
                price: Price::new(Binary64::from_u64(189)).expect("price is non-zero"),
            }),
        )
        .expect_err("unknown order cannot fill");

    assert_eq!(error, ReducerError::UnknownOrder(99));
    assert!(engine.events().is_empty());
}

#[test]
fn a_second_submission_and_a_second_fill_are_refused() {
    let mut engine = Engine::default();
    let fill = || {
        Event::OrderFilled(Fill {
            order_id: 1,
            price: Price::new(Binary64::from_u64(5)).expect("price is non-zero"),
        })
    };
    engine
        .dispatch_at(1, Event::OrderSubmitted(order(1, "AAPL")))
        .expect("new order is accepted");
    assert_eq!(
        engine
            .dispatch_at(2, Event::OrderSubmitted(order(1, "AAPL")))
            .err(),
        Some(ReducerError::DuplicateOrder(1))
    );
    engine.dispatch_at(3, fill()).expect("pending order can fill");
    assert_eq!(
        engine.dispatch_at(4, fill()).err(),
        Some(ReducerError::OrderAlreadyFilled(1))
    );
    assert_eq!(engine.events().len(), 2);
}

#[test]
fn refusals_are_reported_in_words() {
    assert_eq!(
        ReducerError::DuplicateOrder(3).to_text(),
        "order 3 already exists"
    );
    assert_eq!(
        ReducerError::UnknownOrder(99).to_text(),
        "order 99 does not exist"
    );
    assert_eq!(
        ReducerError::OrderAlreadyFilled(0).to_text(),
        "order 0 is already filled"
    );
}
