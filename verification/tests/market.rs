use bullet::binary64::Binary64;
use bullet::market::{Bar, Event, EventEnvelope, Instrument, Order, Price, Quantity, Side};

fn of(value: f64) -> Binary64 {
    Binary64::from_bits(value.to_bits())
}

fn back(value: Binary64) -> f64 {
    f64::from_bits(value.to_bits())
}

#[test]
fn domain_values_require_valid_input() {
    assert_eq!(Instrument::new(""), None);
    assert_eq!(Price::new(of(0.0)), None);
    assert_eq!(Price::new(of(f64::NAN)), None);
    assert_eq!(Quantity::new(0), None);
}

#[test]
fn order_event_keeps_its_domain_values() {
    let instrument = Instrument::new("AAPL").expect("a symbol is non-empty");
    let quantity = Quantity::new(10).expect("quantity is non-zero");
    let order = Order::new(7, instrument, Side::Buy, quantity);
    let envelope = EventEnvelope::new(3, 42, Event::OrderSubmitted(order.clone()));

    assert_eq!(envelope.sequence, 3);
    assert_eq!(envelope.timestamp_ns, 42);
    assert_eq!(envelope.payload, Event::OrderSubmitted(order));
}

#[test]
fn bar_keeps_validated_prices() {
    let open = Price::new(of(100.25)).expect("price is positive and finite");
    let close = Price::new(of(101.5)).expect("price is positive and finite");
    let bar = Bar::new(7, open, close);

    assert_eq!(bar.timestamp_ns, 7);
    assert_eq!(back(bar.open.value()), 100.25);
    assert_eq!(back(bar.close.value()), 101.5);
}

#[test]
fn values_at_the_edges_are_accepted() {
    assert_eq!(Price::new(of(f64::INFINITY)), None);
    assert_eq!(Price::new(of(-1.0)), None);
    assert_eq!(
        Price::new(of(5e-324)).map(|price| back(price.value())),
        Some(5e-324)
    );
    assert_eq!(Quantity::new(1).map(|quantity| quantity.value()), Some(1));
    let instrument = Instrument::new("ES").expect("a symbol is non-empty");
    assert_eq!(instrument.as_str(), "ES");
}

#[test]
fn prices_are_ordered_by_their_numbers() {
    let price = |value: f64| Price::new(of(value)).expect("price is positive and finite");
    assert!(price(1.5) < price(2.0));
    assert!(price(1e300) > price(5e-324));
    assert!(price(2.0) <= price(2.0));
}
