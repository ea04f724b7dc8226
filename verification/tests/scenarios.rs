use order_matching_engine::orderbook::OrderbookError;
use order_matching_engine::orderbook::orderbook::Orderbook;
use order_matching_engine::orderbook::orderlevels::OrderLevels;
use order_matching_engine::orderbook::{
    CancelledOrder, MarketDataUpdate, Order, OrderId, OrderSide, OrderType, Price, Quantity, Trade,
    TradeInfo,
};
use order_matching_engine::web_server::{
    CancelRequestType, OrderRequest, TradeRequest, TradeRequestError,
};

fn request(
    id: OrderId,
    order_type: OrderType,
    order_side: OrderSide,
    price: Price,
    quantity: Quantity,
    minimum_quantity: Quantity,
) -> TradeRequest {
    TradeRequest {
        id,
        order_type,
        order_side,
        price,
        quantity,
        minimum_quantity,
        expiration_date: None,
    }
}

fn buy(id: OrderId, price: Price, quantity: Quantity, minimum: Quantity) -> OrderRequest {
    OrderRequest::Trade(request(
        id,
        OrderType::Normal,
        OrderSide::Buy,
        price,
        quantity,
        minimum,
    ))
}

fn sell(id: OrderId, price: Price, quantity: Quantity, minimum: Quantity) -> OrderRequest {
    OrderRequest::Trade(request(
        id,
        OrderType::Normal,
        OrderSide::Sell,
        price,
        quantity,
        minimum,
    ))
}

fn trade(bid: (OrderId, Price, Quantity), ask: (OrderId, Price, Quantity)) -> MarketDataUpdate {
    MarketDataUpdate::Trade(Trade {
        bid: TradeInfo {
            order_id: bid.0,
            price: bid.1,
            quantity: bid.2,
        },
        ask: TradeInfo {
            order_id: ask.0,
            price: ask.1,
            quantity: ask.2,
        },
    })
}

fn serve(book: &mut Orderbook, order_request: OrderRequest) -> Vec<MarketDataUpdate> {
    book.place_trade_request(order_request).unwrap()
}

fn is_empty(book: &Orderbook) -> bool {
    book.order_count() == 0
        && book.ask_levels().get_prices().is_empty()
        && book.bid_levels().get_prices().is_empty()
}

const B1: OrderId = 0xb1;
const B2: OrderId = 0xb2;
const S1: OrderId = 0x51;
const S2: OrderId = 0x52;

#[test]
fn symmetric_cross_empties_the_book() {
    let mut book = Orderbook::new(None);
    assert_eq!(serve(&mut book, buy(B1, 10, 1, 0)), vec![]);
    assert_eq!(
        serve(&mut book, sell(S1, 10, 1, 0)),
        vec![trade((B1, 10, 1), (S1, 10, 1))]
    );
    assert!(is_empty(&book));
}

#[test]
fn partial_fill_rests_the_remainder() {
    let mut book = Orderbook::new(None);
    assert_eq!(serve(&mut book, buy(B1, 10, 1, 0)), vec![]);
    assert_eq!(
        serve(&mut book, sell(S1, 10, 2, 0)),
        vec![trade((B1, 10, 1), (S1, 10, 1))]
    );
    let resting = book.get_order(&S1).unwrap();
    assert_eq!(resting.remaining_quantity, 1);
    assert_eq!(resting.virtual_remaining_quantity, 1);
    assert_eq!(resting.initial_quantity, 2);
    assert_eq!(book.ask_levels().get_orders(&10).unwrap(), &vec![S1]);
    assert_eq!(book.order_count(), 1);
    assert!(book.bid_levels().get_prices().is_empty());
}

#[test]
fn aggressive_cross_keeps_each_party_its_price() {
    let mut book = Orderbook::new(None);
    assert_eq!(serve(&mut book, buy(B1, 2, 1, 0)), vec![]);
    assert_eq!(
        serve(&mut book, sell(S1, 1, 1, 0)),
        vec![trade((B1, 2, 1), (S1, 1, 1))]
    );
    assert!(is_empty(&book));
}

#[test]
fn several_counterparties_fill_oldest_first() {
    let mut book = Orderbook::new(None);
    assert_eq!(serve(&mut book, buy(B1, 1, 1, 0)), vec![]);
    assert_eq!(serve(&mut book, buy(B2, 1, 2, 0)), vec![]);
    assert_eq!(
        serve(&mut book, sell(S1, 1, 3, 0)),
        vec![
            trade((B1, 1, 1), (S1, 1, 1)),
            trade((B2, 1, 2), (S1, 1, 2))
        ]
    );
    assert!(is_empty(&book));
}

#[test]
fn minimum_blocks_the_aggressor() {
    let mut book = Orderbook::new(None);
    assert_eq!(serve(&mut book, buy(B1, 1, 1, 0)), vec![]);
    assert_eq!(serve(&mut book, sell(S1, 1, 2, 2)), vec![]);
    let bid = book.get_order(&B1).unwrap();
    let ask = book.get_order(&S1).unwrap();
    assert_eq!((bid.remaining_quantity, bid.virtual_remaining_quantity), (1, 1));
    assert_eq!((ask.remaining_quantity, ask.virtual_remaining_quantity), (2, 2));
    assert_eq!(book.bid_levels().get_orders(&1).unwrap(), &vec![B1]);
    assert_eq!(book.ask_levels().get_orders(&1).unwrap(), &vec![S1]);
}

#[test]
fn skipped_minimum_keeps_its_place() {
    let mut book = Orderbook::new(None);
    let first = Order::with_id(B1, OrderType::Normal, OrderSide::Buy, 1, 1, 5);
    assert_eq!(book.match_order(first), Ok(vec![]));
    assert_eq!(serve(&mut book, buy(B2, 1, 1, 0)), vec![]);
    assert_eq!(
        serve(&mut book, sell(S1, 1, 1, 0)),
        vec![trade((B2, 1, 1), (S1, 1, 1))]
    );
    assert_eq!(book.get_order(&B1).unwrap().remaining_quantity, 1);
    assert_eq!(book.bid_levels().get_orders(&1).unwrap(), &vec![B1]);
    assert!(book.ask_levels().get_prices().is_empty());
    assert_eq!(book.order_count(), 1);
}

#[test]
fn kill_without_match_leaves_nothing() {
    let mut book = Orderbook::new(None);
    let kill = OrderRequest::Trade(request(7, OrderType::Kill, OrderSide::Buy, 1, 1, 0));
    assert_eq!(serve(&mut book, kill), vec![]);
    assert!(is_empty(&book));
}

#[test]
fn modify_to_fill() {
    let mut book = Orderbook::new(None);
    assert_eq!(serve(&mut book, buy(B1, 1, 1, 0)), vec![]);
    assert_eq!(serve(&mut book, sell(S1, 2, 1, 0)), vec![]);
    let before = book.get_order(&S1).unwrap();
    let modify = OrderRequest::Modify(request(
        S1,
        OrderType::Normal,
        OrderSide::Sell,
        1,
        1,
        0,
    ));
    assert_eq!(
        serve(&mut book, modify),
        vec![
            MarketDataUpdate::Cancellation(CancelledOrder {
                cancel_request_type: CancelRequestType::Internal,
                order: before,
            }),
            trade((B1, 1, 1), (S1, 1, 1)),
        ]
    );
    assert!(is_empty(&book));
}

#[test]
fn kill_with_partial_fill_discards_the_rest() {
    let mut book = Orderbook::new(None);
    assert_eq!(serve(&mut book, sell(S1, 5, 2, 0)), vec![]);
    let kill = OrderRequest::Trade(request(7, OrderType::Kill, OrderSide::Buy, 5, 3, 0));
    assert_eq!(serve(&mut book, kill), vec![trade((7, 5, 2), (S1, 5, 2))]);
    assert!(book.get_order(&7).is_none());
    assert!(is_empty(&book));
}

#[test]
fn duplicate_identifier_is_turned_away() {
    let mut book = Orderbook::new(None);
    assert_eq!(serve(&mut book, buy(B1, 1, 1, 0)), vec![]);
    assert_eq!(serve(&mut book, sell(B1, 1, 1, 0)), vec![]);
    assert_eq!(book.get_order(&B1).unwrap().side, OrderSide::Buy);
    assert_eq!(book.order_count(), 1);
    let again = Order::with_id(B1, OrderType::Normal, OrderSide::Sell, 1, 1, 0);
    assert_eq!(
        book.match_order(again),
        Err(OrderbookError::DuplicateOrderId)
    );
}

#[test]
fn invalid_trade_requests_are_turned_away() {
    let mut book = Orderbook::new(None);
    let above = request(1, OrderType::Normal, OrderSide::Buy, 1, 1, 2);
    let nothing = request(2, OrderType::Normal, OrderSide::Buy, 1, 0, 0);
    let fine = request(3, OrderType::Kill, OrderSide::Sell, -4, 9, 9);
    assert_eq!(
        Order::try_from(above),
        Err(TradeRequestError::MinimumAboveQuantity)
    );
    assert_eq!(Order::try_from(nothing), Err(TradeRequestError::ZeroQuantity));
    assert_eq!(
        Order::try_from(fine),
        Ok(Order {
            type_: OrderType::Kill,
            id: 3,
            side: OrderSide::Sell,
            price: -4,
            initial_quantity: 9,
            remaining_quantity: 9,
            minimum_quantity: 9,
            virtual_remaining_quantity: 9,
        })
    );
    assert_eq!(serve(&mut book, OrderRequest::Trade(above)), vec![]);
    assert_eq!(serve(&mut book, OrderRequest::Trade(nothing)), vec![]);
    assert_eq!(serve(&mut book, OrderRequest::Modify(nothing)), vec![]);
    assert!(is_empty(&book));
}

#[test]
fn cancel_reports_the_order_under_the_kind_asked() {
    let mut book = Orderbook::new(None);
    assert_eq!(serve(&mut book, buy(B1, 3, 4, 1)), vec![]);
    assert_eq!(serve(&mut book, buy(B2, 3, 1, 0)), vec![]);
    let resting = book.get_order(&B1).unwrap();
    assert_eq!(
        serve(
            &mut book,
            OrderRequest::Cancel(CancelRequestType::External, B1)
        ),
        vec![MarketDataUpdate::Cancellation(CancelledOrder {
            cancel_request_type: CancelRequestType::External,
            order: resting,
        })]
    );
    assert_eq!(
        serve(
            &mut book,
            OrderRequest::Cancel(CancelRequestType::Internal, B1)
        ),
        vec![]
    );
    assert_eq!(book.bid_levels().get_orders(&3).unwrap(), &vec![B2]);
    assert_eq!(
        book.cancel_order(CancelRequestType::Internal, B2)
            .unwrap()
            .cancel_request_type,
        CancelRequestType::Internal
    );
    assert!(is_empty(&book));
}

#[test]
fn modify_is_turned_away_for_each_fault() {
    let mut book = Orderbook::new(None);
    assert_eq!(serve(&mut book, sell(S1, 5, 4, 0)), vec![]);
    assert_eq!(serve(&mut book, buy(B1, 5, 3, 0)).len(), 1);
    let resting = book.get_order(&S1).unwrap();
    assert_eq!(resting.remaining_quantity, 1);

    let unknown = Order::with_id(S2, OrderType::Normal, OrderSide::Sell, 5, 4, 0);
    let kill = Order::with_id(S1, OrderType::Kill, OrderSide::Sell, 5, 4, 0);
    let other_side = Order::with_id(S1, OrderType::Normal, OrderSide::Buy, 5, 4, 0);
    let too_small = Order::with_id(S1, OrderType::Normal, OrderSide::Sell, 5, 2, 0);
    assert_eq!(
        book.modify_order(unknown).unwrap_err(),
        OrderbookError::OrderNotFound
    );
    assert_eq!(
        book.modify_order(kill).unwrap_err(),
        OrderbookError::TypeMismatch
    );
    assert_eq!(
        book.modify_order(other_side).unwrap_err(),
        OrderbookError::SideMismatch
    );
    assert_eq!(
        book.modify_order(too_small).unwrap_err(),
        OrderbookError::QuantityBelowFilled
    );
    assert_eq!(book.get_order(&S1), Some(resting));
    assert_eq!(book.ask_levels().get_orders(&5).unwrap(), &vec![S1]);

    let as_request = OrderRequest::Modify(request(
        S1,
        OrderType::Normal,
        OrderSide::Buy,
        5,
        4,
        0,
    ));
    assert_eq!(serve(&mut book, as_request), vec![]);
    assert_eq!(book.get_order(&S1), Some(resting));
}

#[test]
fn modify_keeps_remaining_and_minimum_and_takes_the_new_terms() {
    let mut book = Orderbook::new(None);
    assert_eq!(serve(&mut book, sell(S1, 5, 4, 2)), vec![]);
    assert_eq!(serve(&mut book, buy(B1, 5, 3, 0)).len(), 1);
    let modified = Order::with_id(S1, OrderType::Normal, OrderSide::Sell, 7, 3, 0);
    let (cancelled, trades) = book.modify_order(modified).unwrap();
    assert_eq!(cancelled.cancel_request_type, CancelRequestType::Internal);
    assert_eq!(cancelled.order.remaining_quantity, 1);
    assert!(trades.is_empty());
    assert_eq!(
        book.get_order(&S1),
        Some(Order {
            type_: OrderType::Normal,
            id: S1,
            side: OrderSide::Sell,
            price: 7,
            initial_quantity: 3,
            remaining_quantity: 1,
            minimum_quantity: 2,
            virtual_remaining_quantity: 1,
        })
    );
    assert!(book.ask_levels().get_orders(&5).is_none());
    assert_eq!(book.ask_levels().get_orders(&7).unwrap(), &vec![S1]);
}

#[test]
fn modified_order_goes_to_the_tail_of_its_level() {
    let mut book = Orderbook::new(None);
    assert_eq!(serve(&mut book, buy(B1, 5, 1, 0)), vec![]);
    assert_eq!(serve(&mut book, buy(B2, 5, 1, 0)), vec![]);
    let modified = Order::with_id(B1, OrderType::Normal, OrderSide::Buy, 5, 1, 0);
    book.modify_order(modified).unwrap();
    assert_eq!(book.bid_levels().get_orders(&5).unwrap(), &vec![B2, B1]);
    assert_eq!(
        serve(&mut book, sell(S1, 5, 1, 0)),
        vec![trade((B2, 5, 1), (S1, 5, 1))]
    );
}

#[test]
fn best_price_goes_first_on_both_sides() {
    let mut book = Orderbook::new(None);
    assert_eq!(serve(&mut book, sell(1, 12, 1, 0)), vec![]);
    assert_eq!(serve(&mut book, sell(2, 10, 1, 0)), vec![]);
    assert_eq!(serve(&mut book, sell(3, 11, 1, 0)), vec![]);
    assert_eq!(book.ask_levels().get_prices(), vec![10, 11, 12]);
    assert_eq!(
        serve(&mut book, buy(4, 11, 2, 0)),
        vec![trade((4, 11, 1), (2, 10, 1)), trade((4, 11, 1), (3, 11, 1))]
    );
    assert_eq!(book.ask_levels().get_prices(), vec![12]);

    let mut book = Orderbook::new(None);
    assert_eq!(serve(&mut book, buy(1, 8, 1, 0)), vec![]);
    assert_eq!(serve(&mut book, buy(2, 10, 1, 0)), vec![]);
    assert_eq!(serve(&mut book, buy(3, 9, 1, 0)), vec![]);
    assert_eq!(book.bid_levels().get_prices(), vec![10, 9, 8]);
    assert_eq!(
        serve(&mut book, sell(4, 9, 2, 0)),
        vec![trade((2, 10, 1), (4, 9, 1)), trade((3, 9, 1), (4, 9, 1))]
    );
    assert_eq!(book.bid_levels().get_prices(), vec![8]);
}

#[test]
fn a_crossing_order_goes_through_every_level_while_it_has_quantity() {
    let mut book = Orderbook::new(None);
    assert_eq!(serve(&mut book, sell(1, 1, 1, 0)), vec![]);
    assert_eq!(serve(&mut book, sell(2, 5, 1, 0)), vec![]);
    assert_eq!(
        serve(&mut book, buy(3, 2, 3, 0)),
        vec![trade((3, 2, 1), (1, 1, 1)), trade((3, 2, 1), (2, 5, 1))]
    );
    assert_eq!(book.get_order(&3).unwrap().remaining_quantity, 1);
    assert!(book.ask_levels().get_prices().is_empty());
}

#[test]
fn updates_are_published_in_their_order() {
    let (sender, receiver) = crossbeam::channel::unbounded();
    let mut book = Orderbook::new(Some(sender));
    assert_eq!(serve(&mut book, buy(B1, 1, 1, 0)), vec![]);
    assert_eq!(serve(&mut book, buy(B2, 1, 2, 0)), vec![]);
    assert!(receiver.try_recv().is_err());
    let updates = serve(&mut book, sell(S1, 1, 3, 0));
    assert_eq!(updates.len(), 2);
    assert_eq!(receiver.try_recv().unwrap(), updates[0]);
    assert_eq!(receiver.try_recv().unwrap(), updates[1]);
    assert!(receiver.try_recv().is_err());
    drop(receiver);
    assert_eq!(serve(&mut book, buy(9, 1, 1, 0)), vec![]);
    assert_eq!(
        serve(&mut book, sell(10, 1, 1, 0)),
        vec![trade((9, 1, 1), (10, 1, 1))]
    );
}

#[test]
fn new_orders_draw_different_identifiers() {
    let first = Order::new(OrderType::Normal, OrderSide::Buy, 3, 2, 1);
    let second = Order::new(OrderType::Normal, OrderSide::Buy, 3, 2, 1);
    assert_ne!(first.id, second.id);
    assert_eq!(
        first,
        Order::with_id(first.id, OrderType::Normal, OrderSide::Buy, 3, 2, 1)
    );
    assert_eq!(first.remaining_quantity, 2);
    assert_eq!(first.virtual_remaining_quantity, 2);
    assert_eq!(first.minimum_quantity, 1);
}

#[test]
fn expiration_is_asked_for_where_the_request_names_one() {
    let mut with = request(5, OrderType::Normal, OrderSide::Buy, 1, 1, 0);
    assert_eq!(with.expiration_request(), None);
    with.expiration_date = Some(1_700_000_000);
    let asked = with.expiration_request().unwrap();
    assert_eq!(asked.order_id, 5);
    assert_eq!(asked.timestamp, 1_700_000_000);
}
