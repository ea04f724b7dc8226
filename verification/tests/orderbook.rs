use order_matching_engine::orderbook::orderbook::Orderbook;
use order_matching_engine::orderbook::orderlevels::OrderLevels;
use order_matching_engine::orderbook::{
    Order, OrderId, OrderSide, OrderType, Price, Quantity, Trade, TradeInfo,
};
use order_matching_engine::web_server::CancelRequestType;

fn assert_trade(trades: &Vec<Trade>, index: usize, bid: TradeInfo, ask: TradeInfo) {
    let trade = trades.get(index).unwrap();
    assert_eq!(trade.bid, bid);
    assert_eq!(trade.ask, ask)
}

fn assert_empty_book(orderbook: &Orderbook) {
    assert_eq!(orderbook.order_count(), 0);
    assert!(orderbook.ask_levels().get_prices().is_empty());
    assert!(orderbook.bid_levels().get_prices().is_empty());
}

fn assert_book_has_order(
    orderbook: &Orderbook,
    order_id: &OrderId,
    order_side: &OrderSide,
    remaining_quantity: &Quantity,
    price: &Price,
) {
    let order = orderbook.get_order(order_id).unwrap();
    assert_eq!(order.remaining_quantity, *remaining_quantity);
    match order_side {
        OrderSide::Buy => assert!(orderbook
            .bid_levels()
            .get_orders(price)
            .unwrap()
            .contains(order_id)),

        OrderSide::Sell => assert!(orderbook
            .ask_levels()
            .get_orders(price)
            .unwrap()
            .contains(order_id)),
    }
}

fn assert_empty_asks(orderbook: &Orderbook) {
    assert!(orderbook.ask_levels().get_prices().is_empty())
}

fn assert_empty_bids(orderbook: &Orderbook) {
    assert!(orderbook.bid_levels().get_prices().is_empty())
}

#[test]
fn can_insert_order() {
    let mut orderbook = Orderbook::default();
    let price = 1;
    let quantity = 1;

    let order = Order::new(OrderType::Normal, OrderSide::Buy, price, quantity, 0);
    let trades = orderbook.match_order(order).unwrap();

    assert_eq!(trades.len(), 0);
    assert_book_has_order(&orderbook, &order.id, &order.side, &quantity, &price);
    assert_empty_asks(&orderbook);
}

#[test]
fn cannot_match_orders_when_ask_exceeds_bid() {
    let mut orderbook = Orderbook::default();

    let quantity = 1;
    let bid_price = 1;
    let ask_price = 2;

    let buy_order = Order::new(OrderType::Normal, OrderSide::Buy, bid_price, quantity, 0);
    let sell_order = Order::new(OrderType::Normal, OrderSide::Sell, ask_price, quantity, 0);

    let first_trades = orderbook.match_order(buy_order).unwrap();
    let second_trades = orderbook.match_order(sell_order).unwrap();

    assert!(first_trades.is_empty());
    assert!(second_trades.is_empty());

    assert_book_has_order(
        &orderbook,
        &buy_order.id,
        &buy_order.side,
        &quantity,
        &bid_price,
    );

    assert_book_has_order(
        &orderbook,
        &sell_order.id,
        &sell_order.side,
        &quantity,
        &ask_price,
    );
}

#[test]
fn can_kill_order() {
    let mut orderbook = Orderbook::default();
    let price = 1;
    let quantity = 1;

    let order = Order::new(OrderType::Kill, OrderSide::Buy, price, quantity, 0);
    let trades = orderbook.match_order(order).unwrap();

    assert!(trades.is_empty());
    assert_empty_book(&orderbook);
}

#[test]
fn can_match_symmetric_opposing_orders() {
    let mut orderbook = Orderbook::default();
    let price = 1;
    let quantity = 1;

    let buy_order = Order::new(OrderType::Normal, OrderSide::Buy, price, quantity, 0);
    let sell_order = Order::new(OrderType::Normal, OrderSide::Sell, price, quantity, 0);

    let first_trades = orderbook.match_order(buy_order).unwrap();
    let second_trades = orderbook.match_order(sell_order).unwrap();

    assert!(first_trades.is_empty());
    assert_eq!(
        second_trades.first().unwrap(),
        &Trade {
            bid: TradeInfo {
                order_id: buy_order.id,
                price,
                quantity,
            },
            ask: TradeInfo {
                order_id: sell_order.id,
                price,
                quantity,
            }
        }
    );
    assert_empty_book(&orderbook);
}

#[test]
fn can_partially_fill_orders() {
    let mut orderbook = Orderbook::default();
    let price = 1;

    let buy_order = Order::new(OrderType::Normal, OrderSide::Buy, price, 1, 0);
    let sell_order = Order::new(OrderType::Normal, OrderSide::Sell, price, 2, 0);

    let first_trades = orderbook.match_order(buy_order).unwrap();
    let second_trades = orderbook.match_order(sell_order).unwrap();

    assert!(first_trades.is_empty());
    assert_trade(
        &second_trades,
        0,
        TradeInfo {
            order_id: buy_order.id,
            price,
            quantity: 1,
        },
        TradeInfo {
            order_id: sell_order.id,
            price,
            quantity: 1,
        },
    );
    assert_empty_bids(&orderbook);
    assert_book_has_order(&orderbook, &sell_order.id, &sell_order.side, &1, &price);
}

#[test]
fn can_match_orders_with_different_prices() {
    let mut orderbook = Orderbook::default();
    let quantity = 1;
    let buy_price = 2;
    let sell_price = 1;

    let buy_order = Order::new(OrderType::Normal, OrderSide::Buy, buy_price, quantity, 0);
    let sell_order = Order::new(OrderType::Normal, OrderSide::Sell, sell_price, quantity, 0);

    let first_trades = orderbook.match_order(buy_order).unwrap();
    let second_trades = orderbook.match_order(sell_order).unwrap();

    assert!(first_trades.is_empty());
    assert_trade(
        &second_trades,
        0,
        TradeInfo {
            order_id: buy_order.id,
            price: buy_price,
            quantity,
        },
        TradeInfo {
            order_id: sell_order.id,
            price: sell_price,
            quantity,
        },
    );
    assert_empty_book(&orderbook);
}

#[test]
fn can_fill_with_multiple_opposing_orders() {
    let mut orderbook = Orderbook::default();
    let price = 1;

    let buy_order_1 = Order::new(OrderType::Normal, OrderSide::Buy, price, 1, 0);
    let buy_order_2 = Order::new(OrderType::Normal, OrderSide::Buy, price, 2, 0);
    let sell_order = Order::new(OrderType::Normal, OrderSide::Sell, price, 3, 0);

    let first_trades = orderbook.match_order(buy_order_1).unwrap();
    let second_trades = orderbook.match_order(buy_order_2).unwrap();
    let third_trades = orderbook.match_order(sell_order).unwrap();

    assert!(first_trades.is_empty());
    assert!(second_trades.is_empty());
    assert_trade(
        &third_trades,
        0,
        TradeInfo {
            order_id: buy_order_1.id,
            price,
            quantity: 1,
        },
        TradeInfo {
            order_id: sell_order.id,
            price,
            quantity: 1,
        },
    );
    assert_trade(
        &third_trades,
        1,
        TradeInfo {
            order_id: buy_order_2.id,
            price,
            quantity: 2,
        },
        TradeInfo {
            order_id: sell_order.id,
            price,
            quantity: 2,
        },
    );
    assert_empty_book(&orderbook);
}

#[test]
fn order_not_filled_when_min_quantity_not_met() {
    let mut orderbook = Orderbook::default();
    let price = 1;

    let buy_order = Order::new(OrderType::Normal, OrderSide::Buy, price, 1, 0);
    let sell_order = Order::new(OrderType::Normal, OrderSide::Sell, price, 2, 2);

    let first_trades = orderbook.match_order(buy_order).unwrap();
    let second_trades = orderbook.match_order(sell_order).unwrap();

    assert!(first_trades.is_empty());
    assert!(second_trades.is_empty());
    assert_book_has_order(&orderbook, &buy_order.id, &buy_order.side, &1, &price);
    assert_book_has_order(&orderbook, &sell_order.id, &sell_order.side, &2, &price);
}

#[test]
fn order_filled_when_min_quantity_met() {
    let mut orderbook = Orderbook::default();
    let price = 1;
    let quantity = 2;

    let buy_order = Order::new(OrderType::Normal, OrderSide::Buy, price, quantity, 0);
    let sell_order = Order::new(
        OrderType::Normal,
        OrderSide::Sell,
        price,
        quantity,
        quantity,
    );

    let first_trades = orderbook.match_order(buy_order).unwrap();
    let second_trades = orderbook.match_order(sell_order).unwrap();
    assert!(first_trades.is_empty());
    assert_trade(
        &second_trades,
        0,
        TradeInfo {
            order_id: buy_order.id,
            price,
            quantity,
        },
        TradeInfo {
            order_id: sell_order.id,
            price,
            quantity,
        },
    );
    assert_empty_book(&orderbook)
}

#[test]
fn resting_order_not_filled_when_min_quantity_not_met() {
    let mut orderbook = Orderbook::default();
    let price = 1;

    let buy_order_1 = Order::new(OrderType::Normal, OrderSide::Buy, price, 1, 5);
    let buy_order_2 = Order::new(OrderType::Normal, OrderSide::Buy, price, 1, 0);
    let sell_order = Order::new(OrderType::Normal, OrderSide::Sell, price, 1, 0);

    let first_trades = orderbook.match_order(buy_order_1).unwrap();
    let second_trades = orderbook.match_order(buy_order_2).unwrap();
    let third_trades = orderbook.match_order(sell_order).unwrap();

    assert!(first_trades.is_empty());
    assert!(second_trades.is_empty());
    assert_trade(
        &third_trades,
        0,
        TradeInfo {
            order_id: buy_order_2.id,
            price,
            quantity: 1,
        },
        TradeInfo {
            order_id: sell_order.id,
            price,
            quantity: 1,
        },
    );
    assert_book_has_order(
        &orderbook,
        &buy_order_1.id,
        &buy_order_1.side,
        &buy_order_1.remaining_quantity,
        &price,
    );
    assert_empty_asks(&orderbook);
}

#[test]
fn can_cancel_order() {
    let mut orderbook = Orderbook::new(None);

    let order = Order::new(OrderType::Normal, OrderSide::Buy, 1, 1, 0);
    let trades = orderbook.match_order(order).unwrap();
    let cancellation = orderbook
        .cancel_order(CancelRequestType::External, order.id)
        .unwrap();

    assert!(trades.is_empty());
    assert_eq!(cancellation.order, order);
    assert_empty_book(&orderbook)
}

#[test]
fn can_modify_order() {
    let mut orderbook = Orderbook::new(None);

    let order = Order::new(OrderType::Normal, OrderSide::Buy, 1, 1, 0);
    let first_trades = orderbook.match_order(order).unwrap();

    let modified_order = Order {
        type_: order.type_,
        id: order.id,
        side: order.side,
        price: 2,
        initial_quantity: 1,
        remaining_quantity: 1,
        minimum_quantity: 1,
        virtual_remaining_quantity: 1,
    };

    let (cancelled_order, second_trades) = orderbook.modify_order(modified_order).unwrap();

    assert!(first_trades.is_empty());
    assert!(second_trades.is_empty());
    assert_eq!(order, cancelled_order.order);
    assert_book_has_order(&orderbook, &modified_order.id, &modified_order.side, &1, &2)
}

#[test]
fn modified_order_can_be_filled() {
    let mut orderbook = Orderbook::new(None);
    let buy_order = Order::new(OrderType::Normal, OrderSide::Buy, 1, 1, 0);
    let sell_order = Order::new(OrderType::Normal, OrderSide::Sell, 2, 1, 0);

    let first_trades = orderbook.match_order(buy_order).unwrap();
    let second_trades = orderbook.match_order(sell_order).unwrap();

    let modified_order = Order {
        type_: sell_order.type_,
        id: sell_order.id,
        side: sell_order.side,
        price: 1,
        initial_quantity: 1,
        remaining_quantity: 1,
        minimum_quantity: 1,
        virtual_remaining_quantity: 1,
    };
    let (cancelled_order, third_trades) = orderbook.modify_order(modified_order).unwrap();

    assert!(first_trades.is_empty());
    assert!(second_trades.is_empty());
    assert_eq!(sell_order, cancelled_order.order);
    assert_trade(
        &third_trades,
        0,
        TradeInfo {
            order_id: buy_order.id,
            price: 1,
            quantity: 1,
        },
        TradeInfo {
            order_id: sell_order.id,
            price: 1,
            quantity: 1,
        },
    );
    assert_empty_book(&orderbook)
}
