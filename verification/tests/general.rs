use order_matching_engine::orderbook::orderbook::Orderbook;
use order_matching_engine::orderbook::orderlevels::OrderLevels;
use order_matching_engine::orderbook::{Order, OrderId, OrderSide, OrderType, Trade};

fn order(
    id: OrderId,
    order_type: OrderType,
    side: OrderSide,
    price: i64,
    quantity: u64,
    minimum: u64,
) -> Order {
    Order::with_id(id, order_type, side, price, quantity, minimum)
}

fn taken(trades: &[Trade], id: OrderId) -> u64 {
    trades
        .iter()
        .map(|trade| {
            let of_bid = if trade.bid.order_id == id {
                trade.bid.quantity
            } else {
                0
            };
            let of_ask = if trade.ask.order_id == id {
                trade.ask.quantity
            } else {
                0
            };
            of_bid + of_ask
        })
        .sum()
}

fn resting(book: &Orderbook, id: OrderId) -> u64 {
    book.get_order(&id).map_or(0, |order| order.remaining_quantity)
}

fn uncrossed(book: &Orderbook) -> bool {
    match (
        book.bid_levels().get_best_price(),
        book.ask_levels().get_best_price(),
    ) {
        (Some(bid), Some(ask)) => bid < ask,
        _ => true,
    }
}

#[test]
fn quantity_is_conserved_by_a_match() {
    let mut book = Orderbook::new(None);
    book.match_order(order(1, OrderType::Normal, OrderSide::Sell, 10, 3, 0))
        .unwrap();
    book.match_order(order(2, OrderType::Normal, OrderSide::Sell, 10, 4, 0))
        .unwrap();
    book.match_order(order(3, OrderType::Normal, OrderSide::Sell, 11, 5, 0))
        .unwrap();
    let trades = book
        .match_order(order(4, OrderType::Normal, OrderSide::Buy, 11, 9, 0))
        .unwrap();
    assert_eq!(taken(&trades, 1) + resting(&book, 1), 3);
    assert_eq!(taken(&trades, 2) + resting(&book, 2), 4);
    assert_eq!(taken(&trades, 3) + resting(&book, 3), 5);
    assert_eq!(taken(&trades, 4) + resting(&book, 4), 9);
    assert_eq!(taken(&trades, 4), 9);
    assert_eq!(resting(&book, 3), 3);
    assert_eq!(taken(&trades, 99) + resting(&book, 99), 0);

    let trades = book
        .match_order(order(5, OrderType::Kill, OrderSide::Buy, 11, 5, 0))
        .unwrap();
    assert_eq!(taken(&trades, 5), 3);
    assert_eq!(resting(&book, 5), 0);
    assert_eq!(taken(&trades, 3) + resting(&book, 3), 3);
}

#[test]
fn an_earlier_order_is_consumed_in_full_before_a_later_one() {
    let mut book = Orderbook::new(None);
    book.match_order(order(1, OrderType::Normal, OrderSide::Buy, 10, 3, 0))
        .unwrap();
    book.match_order(order(2, OrderType::Normal, OrderSide::Buy, 10, 4, 0))
        .unwrap();
    let trades = book
        .match_order(order(3, OrderType::Normal, OrderSide::Sell, 10, 5, 0))
        .unwrap();
    assert_eq!(trades.len(), 2);
    assert_eq!((trades[0].bid.order_id, trades[0].bid.quantity), (1, 3));
    assert_eq!((trades[1].bid.order_id, trades[1].bid.quantity), (2, 2));
    assert_eq!(resting(&book, 1), 0);
    assert_eq!(resting(&book, 2), 2);
}

#[test]
fn the_book_stays_uncrossed_without_minimums() {
    let mut book = Orderbook::new(None);
    let orders = [
        order(1, OrderType::Normal, OrderSide::Buy, 10, 5, 0),
        order(2, OrderType::Normal, OrderSide::Sell, 12, 5, 1),
        order(3, OrderType::Normal, OrderSide::Sell, 10, 2, 0),
        order(4, OrderType::Normal, OrderSide::Buy, 12, 9, 1),
        order(5, OrderType::Normal, OrderSide::Sell, 11, 9, 0),
        order(6, OrderType::Kill, OrderSide::Buy, 13, 1, 1),
    ];
    for incoming in orders {
        book.match_order(incoming).unwrap();
        assert!(uncrossed(&book));
    }
    assert_eq!(book.bid_levels().get_prices(), Vec::<i64>::new());
    assert_eq!(book.ask_levels().get_prices(), vec![11]);
    assert_eq!(resting(&book, 5), 1);
}

#[test]
fn a_minimum_may_leave_the_book_crossed() {
    let mut book = Orderbook::new(None);
    book.match_order(order(1, OrderType::Normal, OrderSide::Buy, 1, 1, 0))
        .unwrap();
    book.match_order(order(2, OrderType::Normal, OrderSide::Sell, 1, 2, 2))
        .unwrap();
    assert!(!uncrossed(&book));
}

#[test]
fn a_kill_order_never_rests() {
    let mut book = Orderbook::new(None);
    book.match_order(order(1, OrderType::Normal, OrderSide::Sell, 10, 1, 0))
        .unwrap();
    for (id, quantity) in [(2u128, 1u64), (3, 1), (4, 5)] {
        book.match_order(order(id, OrderType::Kill, OrderSide::Buy, 10, quantity, 0))
            .unwrap();
        assert!(book.get_order(&id).is_none());
    }
    assert_eq!(book.order_count(), 0);
}

#[test]
fn no_trade_gives_a_resting_order_less_than_its_minimum() {
    let mut book = Orderbook::new(None);
    book.match_order(order(1, OrderType::Normal, OrderSide::Sell, 10, 5, 3))
        .unwrap();
    book.match_order(order(2, OrderType::Normal, OrderSide::Sell, 10, 5, 0))
        .unwrap();
    let trades = book
        .match_order(order(3, OrderType::Normal, OrderSide::Buy, 10, 2, 0))
        .unwrap();
    assert_eq!(trades.len(), 1);
    assert_eq!((trades[0].ask.order_id, trades[0].ask.quantity), (2, 2));
    let trades = book
        .match_order(order(4, OrderType::Normal, OrderSide::Buy, 10, 4, 4))
        .unwrap();
    assert_eq!(trades.len(), 1);
    assert_eq!((trades[0].ask.order_id, trades[0].ask.quantity), (1, 4));
    assert_eq!(trades[0].bid.quantity, 4);
}

#[test]
fn the_incoming_minimum_counts_the_fills_together() {
    let mut book = Orderbook::new(None);
    book.match_order(order(1, OrderType::Normal, OrderSide::Buy, 10, 1, 0))
        .unwrap();
    book.match_order(order(2, OrderType::Normal, OrderSide::Buy, 10, 2, 0))
        .unwrap();
    let trades = book
        .match_order(order(3, OrderType::Normal, OrderSide::Sell, 10, 3, 3))
        .unwrap();
    assert_eq!(trades.len(), 2);
    assert_eq!(trades[0].ask.quantity, 1);
    assert_eq!(trades[1].ask.quantity, 2);
    assert_eq!(book.order_count(), 0);
}

#[test]
fn a_rollback_changes_no_resting_order() {
    let mut book = Orderbook::new(None);
    book.match_order(order(1, OrderType::Normal, OrderSide::Buy, 10, 1, 0))
        .unwrap();
    book.match_order(order(2, OrderType::Normal, OrderSide::Buy, 9, 2, 0))
        .unwrap();
    let first = book.get_order(&1).unwrap();
    let second = book.get_order(&2).unwrap();
    let trades = book
        .match_order(order(3, OrderType::Kill, OrderSide::Sell, 9, 5, 4))
        .unwrap();
    assert!(trades.is_empty());
    assert_eq!(book.get_order(&1), Some(first));
    assert_eq!(book.get_order(&2), Some(second));
    assert_eq!(book.bid_levels().get_prices(), vec![10, 9]);
    assert_eq!(book.order_count(), 2);

    let trades = book
        .match_order(order(4, OrderType::Normal, OrderSide::Sell, 9, 5, 4))
        .unwrap();
    assert!(trades.is_empty());
    assert_eq!(book.get_order(&1), Some(first));
    assert_eq!(book.get_order(&2), Some(second));
    assert_eq!(
        book.get_order(&4),
        Some(order(4, OrderType::Normal, OrderSide::Sell, 9, 5, 4))
    );
}

#[test]
fn no_trade_is_of_nothing() {
    let mut book = Orderbook::new(None);
    book.match_order(order(1, OrderType::Normal, OrderSide::Sell, 10, 2, 0))
        .unwrap();
    book.match_order(order(2, OrderType::Normal, OrderSide::Sell, 11, 1, 0))
        .unwrap();
    let trades = book
        .match_order(order(3, OrderType::Normal, OrderSide::Buy, 11, 3, 0))
        .unwrap();
    assert_eq!(trades.len(), 2);
    for trade in &trades {
        assert!(trade.bid.quantity >= 1);
        assert_eq!(trade.bid.quantity, trade.ask.quantity);
    }
    let trades = book
        .match_order(order(4, OrderType::Normal, OrderSide::Buy, 11, 3, 0))
        .unwrap();
    assert!(trades.is_empty());
}
