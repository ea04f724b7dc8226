use order_matching_engine::orderbook::orderlevels::{AskOrderLevels, BidOrderLevels, OrderLevels};

#[test]
fn asks_are_kept_lowest_first() {
    let mut asks = AskOrderLevels::new();
    assert_eq!(asks.get_best_price(), None);
    asks.insert_order(5, 1);
    asks.insert_order(3, 2);
    asks.insert_order(9, 3);
    asks.insert_order(5, 4);
    assert_eq!(asks.get_prices(), vec![3, 5, 9]);
    assert_eq!(asks.get_best_price(), Some(3));
    assert_eq!(asks.get_orders(&5).unwrap(), &vec![1, 4]);
    assert_eq!(asks.get_order(5, 0), Some(1));
    assert_eq!(asks.get_order(5, 1), Some(4));
    assert_eq!(asks.get_order(5, 2), None);
    assert_eq!(asks.get_order(4, 0), None);
    assert!(asks.get_orders(&4).is_none());
}

#[test]
fn bids_are_kept_highest_first() {
    let mut bids = BidOrderLevels::new();
    bids.insert_order(5, 1);
    bids.insert_order(3, 2);
    bids.insert_order(9, 3);
    bids.insert_order(-2, 4);
    assert_eq!(bids.get_prices(), vec![9, 5, 3, -2]);
    assert_eq!(bids.get_best_price(), Some(9));
    assert_eq!(bids.get_order(-2, 0), Some(4));
}

#[test]
fn removing_the_last_order_removes_the_level() {
    let mut asks = AskOrderLevels::new();
    asks.insert_order(5, 1);
    asks.insert_order(5, 2);
    asks.insert_order(7, 3);
    assert!(!asks.remove_order(&5, &3));
    assert!(!asks.remove_order(&6, &1));
    assert_eq!(asks.get_prices(), vec![5, 7]);
    assert!(asks.remove_order(&5, &1));
    assert_eq!(asks.get_orders(&5).unwrap(), &vec![2]);
    assert!(asks.remove_order(&5, &2));
    assert_eq!(asks.get_prices(), vec![7]);
    assert!(!asks.remove_order(&5, &2));
    assert!(asks.remove_order(&7, &3));
    assert_eq!(asks.get_best_price(), None);
}

#[test]
fn only_the_first_of_equal_identifiers_is_removed() {
    let mut bids = BidOrderLevels::new();
    bids.insert_order(5, 1);
    bids.insert_order(5, 2);
    bids.insert_order(5, 1);
    assert!(bids.remove_order(&5, &1));
    assert_eq!(bids.get_orders(&5).unwrap(), &vec![2, 1]);
}

#[test]
fn removing_empty_levels_keeps_the_others() {
    let mut bids = BidOrderLevels::new();
    bids.insert_order(5, 1);
    bids.insert_order(4, 2);
    bids.remove_empty_levels();
    assert_eq!(bids.get_prices(), vec![5, 4]);
    assert_eq!(bids.get_orders(&4).unwrap(), &vec![2]);
}
