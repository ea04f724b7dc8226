//! The requests that producers hand to the matching engine.

use crate::expiration_handler::{InsertExpirationRequest, UnixTimestamp};
use crate::orderbook::{Order, OrderId, OrderSide, OrderType, Price, Quantity};
use vstd::prelude::*;

verus! {

/// Who asked for a cancellation: the engine's own services or a producer.
#[derive(Clone, Copy, Debug, PartialEq, Eq, Structural)]
pub enum CancelRequestType {
    Internal,
    External,
}

/// What a producer submits to create or to modify an order.
#[derive(Clone, Copy, Debug, PartialEq, Eq, Structural)]
pub struct TradeRequest {
    pub id: OrderId,
    pub order_type: OrderType,
    pub order_side: OrderSide,
    pub price: Price,
    pub quantity: Quantity,
    pub minimum_quantity: Quantity,
    /// When the order expires, in seconds since the Unix epoch.
    pub expiration_date: Option<UnixTimestamp>,
}

/// A request to the matching engine.
#[derive(Clone, Copy, Debug, PartialEq, Eq, Structural)]
pub enum OrderRequest {
    /// Insert an order and attempt to match it.
    Trade(TradeRequest),
    /// Remove a resting order.
    Cancel(CancelRequestType, OrderId),
    /// Cancel a resting order and submit it anew.
    Modify(TradeRequest),
}

/// Why a trade request does not describe an order.
#[derive(Clone, Copy, Debug, PartialEq, Eq, Structural)]
pub enum TradeRequestError {
    /// The minimum quantity exceeds the quantity.
    MinimumAboveQuantity,
    /// The quantity is zero.
    ZeroQuantity,
}

impl TradeRequest {
    /// Why the request is turned away, if it is.
    pub open spec fn fault(self) -> Option<TradeRequestError> {
        if self.minimum_quantity > self.quantity {
            Some(TradeRequestError::MinimumAboveQuantity)
        } else if self.quantity == 0 {
            Some(TradeRequestError::ZeroQuantity)
        } else {
            None
        }
    }

    /// The unfilled order that a valid request describes.
    pub open spec fn order(self) -> Order {
        Order::fresh(
            self.id,
            self.order_type,
            self.order_side,
            self.price,
            self.quantity,
            self.minimum_quantity,
        )
    }
}

impl TradeRequest {
    /// What the creation of the order asks of the expiration service: to
    /// record the order's expiration, where the request names one.
    pub fn expiration_request(&self) -> (request: Option<InsertExpirationRequest>)
        ensures
            request == (match self.expiration_date {
                Some(timestamp) => Some(InsertExpirationRequest { timestamp, order_id: self.id }),
                None => None,
            }),
    {
        match self.expiration_date {
            Some(timestamp) => Some(InsertExpirationRequest { timestamp, order_id: self.id }),
            None => None,
        }
    }
}

impl Order {
    /// The order that a trade request describes. A request whose minimum
    /// quantity exceeds its quantity, or whose quantity is zero, is turned
    /// away.
    pub fn try_from(trade_request: TradeRequest) -> (result: Result<Order, TradeRequestError>)
        ensures
            result == (match trade_request.fault() {
                Some(error) => Err::<Order, TradeRequestError>(error),
                None => Ok(trade_request.order()),
            }),
    {
        if trade_request.minimum_quantity > trade_request.quantity {
            return Err(TradeRequestError::MinimumAboveQuantity);
        }
        if trade_request.quantity == 0 {
            return Err(TradeRequestError::ZeroQuantity);
        }
        Ok(
            Order {
                id: trade_request.id,
                type_: trade_request.order_type,
                side: trade_request.order_side,
                price: trade_request.price,
                initial_quantity: trade_request.quantity,
                remaining_quantity: trade_request.quantity,
                minimum_quantity: trade_request.minimum_quantity,
                virtual_remaining_quantity: trade_request.quantity,
            },
        )
    }
}

} // verus!
