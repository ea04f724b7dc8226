//! Orders, trades and market data updates.

use crate::web_server::CancelRequestType;
use vstd::prelude::*;

pub mod laws;
pub mod lemmas;
pub mod model;
pub mod orderbook;
pub mod orderlevels;

verus! {

/// Ticks of the instrument's price unit.
pub type Price = i64;

/// Whole units of the instrument.
pub type Quantity = u64;

/// The 128-bit value of an order identifier.
pub type OrderId = u128;

/// Whether an order may rest on the book.
#[derive(Clone, Copy, Debug, PartialEq, Eq, Structural)]
pub enum OrderType {
    /// Rests on the book with whatever quantity is left after matching.
    Normal,
    /// Is matched on entry; what is left is discarded.
    Kill,
}

/// The side of the book an order belongs to.
#[derive(Clone, Copy, Debug, PartialEq, Eq, Structural)]
pub enum OrderSide {
    Buy,
    Sell,
}

/// The unit of resting intent.
#[derive(Clone, Copy, Debug, PartialEq, Eq, Structural)]
pub struct Order {
    pub type_: OrderType,
    pub id: OrderId,
    pub side: OrderSide,
    pub price: Price,
    pub initial_quantity: Quantity,
    pub remaining_quantity: Quantity,
    pub minimum_quantity: Quantity,
    pub virtual_remaining_quantity: Quantity,
}

/// Draws a fresh random identifier with `uuid::Uuid::new_v4` and hands out
/// its 128-bit value. Nothing is claimed of the value.
#[verifier::external_body]
fn fresh_order_id() -> OrderId {
    uuid::Uuid::new_v4().as_u128()
}

impl Order {
    /// The order that `new` and `with_id` build: nothing filled yet.
    pub open spec fn fresh(
        id: OrderId,
        type_: OrderType,
        side: OrderSide,
        price: Price,
        quantity: Quantity,
        minimum_quantity: Quantity,
    ) -> Order {
        Order {
            type_,
            id,
            side,
            price,
            initial_quantity: quantity,
            remaining_quantity: quantity,
            minimum_quantity,
            virtual_remaining_quantity: quantity,
        }
    }

    /// An unfilled order under the given identifier.
    pub fn with_id(
        id: OrderId,
        type_: OrderType,
        side: OrderSide,
        price: Price,
        quantity: Quantity,
        minimum_quantity: Quantity,
    ) -> (order: Order)
        ensures
            order == Order::fresh(id, type_, side, price, quantity, minimum_quantity),
    {
        Order {
            type_,
            id,
            side,
            price,
            initial_quantity: quantity,
            remaining_quantity: quantity,
            minimum_quantity,
            virtual_remaining_quantity: quantity,
        }
    }

    /// An unfilled order under a freshly drawn random identifier.
    pub fn new(
        type_: OrderType,
        side: OrderSide,
        price: Price,
        quantity: Quantity,
        minimum_quantity: Quantity,
    ) -> (order: Order)
        ensures
            order == Order::fresh(order.id, type_, side, price, quantity, minimum_quantity),
    {
        let id = fresh_order_id();
        Order::with_id(id, type_, side, price, quantity, minimum_quantity)
    }

    /// No matching pass is under way on this order.
    pub open spec fn at_rest(&self) -> bool {
        self.virtual_remaining_quantity == self.remaining_quantity
    }
}

/// One party's half of a trade.
#[derive(Clone, Copy, Debug, PartialEq, Eq, Structural)]
pub struct TradeInfo {
    pub order_id: OrderId,
    pub price: Price,
    pub quantity: Quantity,
}

/// A matched pair: the buying and the selling half, of equal quantity.
#[derive(Clone, Copy, Debug, PartialEq, Eq, Structural)]
pub struct Trade {
    pub bid: TradeInfo,
    pub ask: TradeInfo,
}

/// Which party's minimum quantity stood in the way of a fill.
#[derive(Clone, Copy, Debug, PartialEq, Eq, Structural)]
pub enum MinQuantityNotMetTypes {
    Ask,
    Bid,
}

/// Why two orders could not be traded against each other.
#[derive(Debug)]
pub enum ProcessTradeError {
    MinQuantityNotMet(Vec<MinQuantityNotMetTypes>),
    PriceDiscrepancy,
    FillQuantityHigherThanRemaining,
}

/// Why the engine turns a request away.
#[derive(Clone, Copy, Debug, PartialEq, Eq, Structural)]
pub enum OrderbookError {
    /// An order with this identifier rests on the book already.
    DuplicateOrderId,
    /// No order with this identifier rests on the book.
    OrderNotFound,
    /// A modification may not change the order's type.
    TypeMismatch,
    /// A modification may not change the order's side.
    SideMismatch,
    /// A modification may not shrink the order below what is filled.
    QuantityBelowFilled,
}

/// A resting order that left the book on request, as it was when it left.
#[derive(Clone, Copy, Debug, PartialEq, Eq, Structural)]
pub struct CancelledOrder {
    pub cancel_request_type: CancelRequestType,
    pub order: Order,
}

/// What the engine publishes to its subscribers.
#[derive(Clone, Copy, Debug, PartialEq, Eq, Structural)]
pub enum MarketDataUpdate {
    Trade(Trade),
    Cancellation(CancelledOrder),
}

} // verus!
