use crossbeam::channel;
use order_matching_engine::channel::Received;
use order_matching_engine::expiration_handler::expiration_handler::{
    ExpirationError, ExpirationHandler,
};
use order_matching_engine::expiration_handler::{ExpirationOrderRequest, InsertExpirationRequest};
use order_matching_engine::web_server::{CancelRequestType, OrderRequest};

fn insert(order_id: u128, timestamp: i64) -> InsertExpirationRequest {
    InsertExpirationRequest {
        timestamp,
        order_id,
    }
}

#[test]
fn an_expiration_before_now_is_turned_away() {
    let (_requests, requests_rx) = channel::unbounded();
    let (cancel_tx, _cancel_rx) = channel::unbounded();
    let mut handler = ExpirationHandler::new(cancel_tx, requests_rx);
    assert_eq!(
        handler.insert_expiring_order_at(insert(1, 99), 100),
        Err(ExpirationError::TimestampInPast)
    );
    assert!(handler.is_empty());
    assert_eq!(handler.insert_expiring_order_at(insert(1, 100), 100), Ok(()));
    assert_eq!(handler.insert_expiring_order_at(insert(2, 101), 100), Ok(()));
    assert_eq!(handler.len(), 2);
    assert!(!handler.is_empty());
}

#[test]
fn a_second_expiration_of_an_order_replaces_the_first() {
    let (_requests, requests_rx) = channel::unbounded();
    let (cancel_tx, _cancel_rx) = channel::unbounded();
    let mut handler = ExpirationHandler::new(cancel_tx, requests_rx);
    handler.insert_expiring_order_at(insert(1, 50), 0).unwrap();
    handler.insert_expiring_order_at(insert(2, 40), 0).unwrap();
    handler.insert_expiring_order_at(insert(1, 30), 0).unwrap();
    assert_eq!(handler.len(), 2);
    assert_eq!(handler.pop(), Some((1, 30)));
    assert_eq!(handler.pop(), Some((2, 40)));
    assert_eq!(handler.pop(), None);
}

#[test]
fn removing_an_expiration_leaves_the_others() {
    let (_requests, requests_rx) = channel::unbounded();
    let (cancel_tx, _cancel_rx) = channel::unbounded();
    let mut handler = ExpirationHandler::new(cancel_tx, requests_rx);
    handler.insert_expiring_order_at(insert(1, 10), 0).unwrap();
    handler.insert_expiring_order_at(insert(2, 20), 0).unwrap();
    handler.remove_expiration_request(3);
    assert_eq!(handler.len(), 2);
    handler.remove_expiration_request(1);
    assert_eq!(handler.len(), 1);
    assert_eq!(handler.pop(), Some((2, 20)));
    assert!(handler.is_empty());
}

#[test]
fn what_is_due_fires_earliest_first() {
    let (_requests, requests_rx) = channel::unbounded();
    let (cancel_tx, cancel_rx) = channel::unbounded();
    let mut handler = ExpirationHandler::new(cancel_tx, requests_rx);
    handler.insert_expiring_order_at(insert(1, 30), 0).unwrap();
    handler.insert_expiring_order_at(insert(2, 10), 0).unwrap();
    handler.insert_expiring_order_at(insert(3, 20), 0).unwrap();
    handler.insert_expiring_order_at(insert(4, 21), 0).unwrap();
    assert_eq!(handler.expire_due(9), Vec::<u128>::new());
    assert!(cancel_rx.try_recv().is_err());
    assert_eq!(handler.expire_due(20), vec![2, 3]);
    for expected in [2u128, 3] {
        match cancel_rx.try_recv() {
            Ok(OrderRequest::Cancel(CancelRequestType::Internal, order_id)) => {
                assert_eq!(order_id, expected)
            }
            _ => panic!("a cancellation was expected"),
        }
    }
    assert!(cancel_rx.try_recv().is_err());
    assert_eq!(handler.len(), 2);
    assert_eq!(handler.expire_due(100), vec![4, 1]);
    assert!(handler.is_empty());
}

#[test]
fn a_cancellation_that_cannot_be_sent_is_not_tried_again() {
    let (_requests, requests_rx) = channel::unbounded();
    let (cancel_tx, cancel_rx) = channel::unbounded();
    let mut handler = ExpirationHandler::new(cancel_tx, requests_rx);
    drop(cancel_rx);
    assert_eq!(
        handler.send_cancellation_request(5),
        Err(ExpirationError::SendFailed)
    );
    assert_eq!(
        ExpirationHandler::send_outcome(false),
        Err(ExpirationError::SendFailed)
    );
    assert_eq!(ExpirationHandler::send_outcome(true), Ok(()));
    handler.insert_expiring_order_at(insert(5, 1), 0).unwrap();
    assert_eq!(handler.expire_due(1), vec![5]);
    assert!(handler.is_empty());
}

#[test]
fn a_round_serves_one_request_and_fires_what_is_due() {
    let (requests, requests_rx) = channel::unbounded();
    let (cancel_tx, cancel_rx) = channel::unbounded();
    let mut handler = ExpirationHandler::new(cancel_tx, requests_rx);
    let now = chrono::Utc::now().timestamp();
    handler.insert_expiring_order_at(insert(1, 5), 0).unwrap();
    requests
        .send(ExpirationOrderRequest::InsertExpirationRequest(insert(
            2,
            now + 1000,
        )))
        .unwrap();
    requests
        .send(ExpirationOrderRequest::RemoveExpirationRequest(2))
        .unwrap();
    let round = handler.run_once();
    assert_eq!(round.fired, vec![1]);
    assert!(round.served);
    assert!(!round.closed);
    assert_eq!(handler.len(), 1);
    assert!(matches!(
        cancel_rx.try_recv(),
        Ok(OrderRequest::Cancel(CancelRequestType::Internal, 1))
    ));
    let round = handler.run_once();
    assert_eq!(round.fired, Vec::<u128>::new());
    assert!(round.served);
    assert!(handler.is_empty());
    let round = handler.run_once();
    assert_eq!(round.fired, Vec::<u128>::new());
    assert!(!round.served);
    assert!(!round.closed);

    handler.serve_at(
        ExpirationOrderRequest::InsertExpirationRequest(insert(3, 99)),
        100,
    );
    assert!(handler.is_empty());
    handler.serve_at(
        ExpirationOrderRequest::InsertExpirationRequest(insert(3, 100)),
        100,
    );
    assert_eq!(handler.len(), 1);
    handler.serve_at(ExpirationOrderRequest::RemoveExpirationRequest(3), 100);
    assert!(handler.is_empty());

    let insert_due = ExpirationOrderRequest::InsertExpirationRequest(insert(4, 7));
    assert_eq!(handler.round_at(Some(insert_due), 7), vec![4]);
    let insert_later = ExpirationOrderRequest::InsertExpirationRequest(insert(5, 8));
    assert_eq!(handler.round_at(Some(insert_later), 7), Vec::<u128>::new());
    assert_eq!(handler.round_at(None, 8), vec![5]);
    assert!(handler.is_empty());
}

#[test]
fn a_cancellation_of_the_service_is_internal() {
    assert_eq!(
        ExpirationHandler::cancellation_of(17),
        OrderRequest::Cancel(CancelRequestType::Internal, 17)
    );
}

#[test]
fn a_closed_queue_is_told_from_an_empty_one() {
    let (requests, requests_rx) = channel::unbounded();
    let (cancel_tx, cancel_rx) = channel::unbounded();
    let mut handler = ExpirationHandler::new(cancel_tx, requests_rx);
    handler.insert_expiring_order_at(insert(1, 5), 0).unwrap();
    let now = chrono::Utc::now().timestamp();
    requests
        .send(ExpirationOrderRequest::InsertExpirationRequest(insert(
            2,
            now + 1000,
        )))
        .unwrap();
    drop(requests);
    let round = handler.run_once();
    assert!(round.served);
    assert!(!round.closed);
    assert_eq!(round.fired, vec![1]);
    let round = handler.run_once();
    assert!(!round.served);
    assert!(round.closed);
    assert_eq!(round.fired, Vec::<u128>::new());
    assert_eq!(handler.len(), 1);
    assert!(matches!(
        cancel_rx.try_recv(),
        Ok(OrderRequest::Cancel(CancelRequestType::Internal, 1))
    ));
}

#[test]
fn a_round_says_what_the_queue_gave() {
    let (_requests, requests_rx) = channel::unbounded();
    let (cancel_tx, _cancel_rx) = channel::unbounded();
    let mut handler = ExpirationHandler::new(cancel_tx, requests_rx);
    let insert_due = ExpirationOrderRequest::InsertExpirationRequest(insert(4, 7));
    let round = handler.round_for(Received::Message(insert_due), 7);
    assert_eq!((round.fired, round.served, round.closed), (vec![4], true, false));
    handler.insert_expiring_order_at(insert(5, 9), 7).unwrap();
    handler.insert_expiring_order_at(insert(6, 8), 7).unwrap();
    let round = handler.round_for(Received::Empty, 8);
    assert_eq!((round.fired, round.served, round.closed), (vec![6], false, false));
    let round = handler.round_for(Received::Closed, 9);
    assert_eq!((round.fired, round.served, round.closed), (vec![5], false, true));
    assert!(handler.is_empty());
}

#[test]
fn the_latest_time_is_never_in_the_past() {
    let (_requests, requests_rx) = channel::unbounded();
    let (cancel_tx, _cancel_rx) = channel::unbounded();
    let mut handler = ExpirationHandler::new(cancel_tx, requests_rx);
    assert_eq!(handler.insert_expiring_order(insert(1, i64::MAX)), Ok(()));
    assert_eq!(
        handler.insert_expiring_order(insert(2, i64::MIN)),
        Err(ExpirationError::TimestampInPast)
    );
    assert_eq!(handler.pop(), Some((1, i64::MAX)));
    assert!(handler.is_empty());
}
