use order_matching_engine::metrics::{
    register_custom_metrics, registration_outcome, Metric, Metrics,
};
use order_matching_engine::orderbook::orderbook::Orderbook;
use order_matching_engine::orderbook::{Order, OrderSide, OrderType};
use prometheus::Registry;

fn counter(registry: &Registry, name: &str) -> Option<f64> {
    registry
        .gather()
        .iter()
        .find(|family| family.get_name() == name)
        .map(|family| family.get_metric()[0].get_counter().get_value())
}

#[test]
fn the_metrics_are_registered_once() {
    let registry = Registry::new();
    let metrics = Metrics::new().unwrap();
    assert_eq!(register_custom_metrics(&registry, &metrics), Ok(()));
    let mut names: Vec<String> = registry
        .gather()
        .iter()
        .map(|family| family.get_name().to_string())
        .collect();
    names.sort();
    assert_eq!(
        names,
        vec![
            "buy_order_price",
            "matching_duration",
            "order_counter",
            "orders_filled_counter",
            "sell_order_price",
            "trade_counter",
        ]
    );
    assert_eq!(
        register_custom_metrics(&registry, &metrics),
        Err(Metric::SellOrderPrice)
    );
}

#[test]
fn a_refusal_names_the_metric() {
    assert_eq!(registration_outcome(Metric::Trades, true), Ok(()));
    assert_eq!(
        registration_outcome(Metric::Trades, false),
        Err(Metric::Trades)
    );
    assert_eq!(
        registration_outcome(Metric::MatchingDuration, false),
        Err(Metric::MatchingDuration)
    );
}

#[test]
fn the_book_counts_orders_fills_and_trades() {
    let registry = Registry::new();
    let metrics = Metrics::new().unwrap();
    register_custom_metrics(&registry, &metrics).unwrap();
    let mut book = Orderbook::with_metrics(None, metrics);
    book.match_order(Order::with_id(1, OrderType::Normal, OrderSide::Buy, 5, 1, 0))
        .unwrap();
    book.match_order(Order::with_id(2, OrderType::Normal, OrderSide::Buy, 5, 2, 0))
        .unwrap();
    book.match_order(Order::with_id(3, OrderType::Normal, OrderSide::Sell, 5, 2, 0))
        .unwrap();
    assert!(book
        .match_order(Order::with_id(2, OrderType::Normal, OrderSide::Buy, 5, 2, 0))
        .is_err());
    assert_eq!(counter(&registry, "order_counter"), Some(4.0));
    assert_eq!(counter(&registry, "trade_counter"), Some(2.0));
    assert_eq!(counter(&registry, "orders_filled_counter"), Some(2.0));
}

#[test]
fn the_metrics_can_always_be_made() {
    assert!(Metrics::new().is_some());
    assert!(Metrics::new().is_some());
}
