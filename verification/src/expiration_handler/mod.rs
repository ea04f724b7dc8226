//! The time-ordered expiration service.

use crate::orderbook::OrderId;
use vstd::prelude::*;

pub mod expiration_handler;

verus! {

/// Seconds since the Unix epoch.
pub type UnixTimestamp = i64;

/// Asks that an order be cancelled once its time has come.
#[derive(Clone, Copy, Debug, PartialEq, Eq, Structural)]
pub struct InsertExpirationRequest {
    pub timestamp: UnixTimestamp,
    pub order_id: OrderId,
}

/// A request to the expiration service.
#[derive(Clone, Copy, Debug, PartialEq, Eq, Structural)]
pub enum ExpirationOrderRequest {
    InsertExpirationRequest(InsertExpirationRequest),
    RemoveExpirationRequest(OrderId),
}

} // verus!
