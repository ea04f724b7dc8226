use order_matching_engine::market_data_outbox::envelope::{decode, encode};
use order_matching_engine::market_data_outbox::{MULTICAST_ADDR, MULTICAST_PORT, MULTICAST_TTL};
use order_matching_engine::orderbook::{
    CancelledOrder, MarketDataUpdate, Order, OrderSide, OrderType, Trade, TradeInfo,
};
use order_matching_engine::web_server::CancelRequestType;
use uuid::Uuid;

fn a_trade() -> MarketDataUpdate {
    MarketDataUpdate::Trade(Trade {
        bid: TradeInfo {
            order_id: 0x0102_0304_0506_0708_090a_0b0c_0d0e_0f10,
            price: 258,
            quantity: 3,
        },
        ask: TradeInfo {
            order_id: 1,
            price: -1,
            quantity: 3,
        },
    })
}

fn a_cancellation() -> MarketDataUpdate {
    MarketDataUpdate::Cancellation(CancelledOrder {
        cancel_request_type: CancelRequestType::External,
        order: Order {
            type_: OrderType::Kill,
            id: 0xff,
            side: OrderSide::Sell,
            price: i64::MIN,
            initial_quantity: u64::MAX,
            remaining_quantity: 7,
            minimum_quantity: 0,
            virtual_remaining_quantity: 6,
        },
    })
}

#[test]
fn a_trade_is_written_field_by_field() {
    let mut expected: Vec<u8> = vec![0];
    expected.extend(1u8..=16);
    expected.extend([2, 1, 0, 0, 0, 0, 0, 0]);
    expected.extend([3, 0, 0, 0, 0, 0, 0, 0]);
    expected.extend([0, 0, 0, 0, 0, 0, 0, 0, 0, 0, 0, 0, 0, 0, 0, 1]);
    expected.extend([255; 8]);
    expected.extend([3, 0, 0, 0, 0, 0, 0, 0]);
    assert_eq!(encode(&a_trade()), expected);
    assert_eq!(expected.len(), 65);
}

#[test]
fn a_cancellation_is_written_field_by_field() {
    let mut expected: Vec<u8> = vec![1, 1, 1];
    expected.extend([0, 0, 0, 0, 0, 0, 0, 0, 0, 0, 0, 0, 0, 0, 0, 255]);
    expected.push(1);
    expected.extend([0, 0, 0, 0, 0, 0, 0, 128]);
    expected.extend([255; 8]);
    expected.extend([7, 0, 0, 0, 0, 0, 0, 0]);
    expected.extend([0; 8]);
    expected.extend([6, 0, 0, 0, 0, 0, 0, 0]);
    assert_eq!(encode(&a_cancellation()), expected);
    assert_eq!(expected.len(), 60);
}

#[test]
fn the_envelope_is_that_of_borsh() {
    let MarketDataUpdate::Trade(trade) = a_trade() else {
        unreachable!()
    };
    let half = |info: &TradeInfo| {
        (
            *Uuid::from_u128(info.order_id).as_bytes(),
            info.price,
            info.quantity,
        )
    };
    let expected = borsh::to_vec(&(0u8, half(&trade.bid), half(&trade.ask))).unwrap();
    assert_eq!(encode(&a_trade()), expected);

    let MarketDataUpdate::Cancellation(cancelled) = a_cancellation() else {
        unreachable!()
    };
    let order = cancelled.order;
    let expected = borsh::to_vec(&(
        1u8,
        1u8,
        (
            1u8,
            *Uuid::from_u128(order.id).as_bytes(),
            1u8,
            order.price,
            order.initial_quantity,
            order.remaining_quantity,
            order.minimum_quantity,
            order.virtual_remaining_quantity,
        ),
    ))
    .unwrap();
    assert_eq!(encode(&a_cancellation()), expected);
}

#[test]
fn what_is_written_is_read_back() {
    for update in [a_trade(), a_cancellation()] {
        let bytes = encode(&update);
        assert_eq!(decode(&bytes), Some(update));
        assert_eq!(encode(&decode(&bytes).unwrap()), bytes);
    }
    let internal = MarketDataUpdate::Cancellation(CancelledOrder {
        cancel_request_type: CancelRequestType::Internal,
        order: Order::with_id(9, OrderType::Normal, OrderSide::Buy, 4, 2, 1),
    });
    assert_eq!(decode(&encode(&internal)), Some(internal));
}

#[test]
fn bytes_that_stand_for_nothing_are_turned_away() {
    assert_eq!(decode(&[]), None);
    assert_eq!(decode(&[0]), None);
    assert_eq!(decode(&[2; 65]), None);
    let trade = encode(&a_trade());
    assert_eq!(decode(&trade[..64]), None);
    let mut longer = trade.clone();
    longer.push(0);
    assert_eq!(decode(&longer), None);
    let cancellation = encode(&a_cancellation());
    assert_eq!(decode(&cancellation[..59]), None);
    for at in [1usize, 2, 19] {
        let mut wrong = cancellation.clone();
        wrong[at] = 2;
        assert_eq!(decode(&wrong), None);
    }
    let mut as_trade = cancellation.clone();
    as_trade[0] = 0;
    assert_eq!(decode(&as_trade), None);
}

#[test]
fn the_broadcast_endpoint_is_fixed() {
    assert_eq!(MULTICAST_ADDR, [239, 255, 10, 10]);
    assert_eq!(MULTICAST_PORT, 8888);
    assert_eq!(MULTICAST_TTL, 5);
}
