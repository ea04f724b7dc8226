//! The book as the contracts see it, and what each request makes of it.
//!
//! A book is its two sides, each a sequence of price levels best first, and
//! the registry of resting orders. The functions here say, over these plain
//! values, which trades a request produces and which book it leaves.

use super::orderlevels::{all_occupied, ordered, with_order, without_order, LevelView};
use super::{
    CancelledOrder, MarketDataUpdate, Order, OrderId, OrderSide, OrderType, OrderbookError, Price,
    Quantity, Trade, TradeInfo,
};
use crate::web_server::{CancelRequestType, OrderRequest};
use vstd::prelude::*;

verus! {

/// The smaller of two quantities.
pub open spec fn least(a: Quantity, b: Quantity) -> Quantity {
    if a <= b {
        a
    } else {
        b
    }
}

/// The side that an order of side `side` trades against.
pub open spec fn other_side(side: OrderSide) -> OrderSide {
    match side {
        OrderSide::Buy => OrderSide::Sell,
        OrderSide::Sell => OrderSide::Buy,
    }
}

/// The identifiers of `ids` that are in `live`, in their order.
pub open spec fn retained(ids: Seq<OrderId>, live: Set<OrderId>) -> Seq<OrderId>
    decreases ids.len(),
{
    if ids.len() == 0 {
        ids
    } else if live.contains(ids.last()) {
        retained(ids.drop_last(), live).push(ids.last())
    } else {
        retained(ids.drop_last(), live)
    }
}

/// The levels with only the identifiers in `live` left, in their order; a
/// level that keeps none is dropped.
pub open spec fn pruned(levels: Seq<LevelView>, live: Set<OrderId>) -> Seq<LevelView>
    decreases levels.len(),
{
    if levels.len() == 0 {
        levels
    } else if retained(levels.last().ids, live).len() == 0 {
        pruned(levels.drop_last(), live)
    } else {
        pruned(levels.drop_last(), live).push(
            LevelView { price: levels.last().price, ids: retained(levels.last().ids, live) },
        )
    }
}

/// Some level at `price` holds `id`.
pub open spec fn listed(levels: Seq<LevelView>, price: Price, id: OrderId) -> bool {
    exists|i: int|
        0 <= i < levels.len() && (#[trigger] levels[i]).price == price && levels[i].ids.contains(id)
}

/// Every identifier in the levels belongs to a registered order of this side
/// and of the level's price, and stands there once.
pub open spec fn side_registered(
    levels: Seq<LevelView>,
    side: OrderSide,
    orders: Map<OrderId, Order>,
) -> bool {
    &&& forall|i: int, j: int|
        0 <= i < levels.len() && 0 <= j < levels[i].ids.len() ==> {
            let id = #[trigger] levels[i].ids[j];
            &&& orders.contains_key(id)
            &&& orders[id].side == side
            &&& orders[id].price == levels[i].price
        }
    &&& forall|i: int| 0 <= i < levels.len() ==> (#[trigger] levels[i]).ids.no_duplicates()
}

/// The book: both sides and the registry of resting orders.
pub struct BookView {
    pub asks: Seq<LevelView>,
    pub bids: Seq<LevelView>,
    pub orders: Map<OrderId, Order>,
}

/// The state of a matching pass: what the incoming order can still take, the
/// registry with the tentative quantities of the resting orders, and the
/// candidate trades so far.
pub struct Pass {
    pub available: Quantity,
    pub orders: Map<OrderId, Order>,
    pub trades: Seq<Trade>,
}

/// The trade of `quantity` between the incoming order and the resting order
/// `resting_id` of the level at `resting_price`. Each half carries its own
/// order's price.
pub open spec fn trade_between(
    incoming: Order,
    resting_id: OrderId,
    resting_price: Price,
    quantity: Quantity,
) -> Trade {
    let own = TradeInfo { order_id: incoming.id, price: incoming.price, quantity };
    let theirs = TradeInfo { order_id: resting_id, price: resting_price, quantity };
    match incoming.side {
        OrderSide::Buy => Trade { bid: own, ask: theirs },
        OrderSide::Sell => Trade { bid: theirs, ask: own },
    }
}

/// The half of a trade that belongs to the resting order, given the side of
/// the incoming one.
pub open spec fn resting_half(trade: Trade, incoming_side: OrderSide) -> TradeInfo {
    match incoming_side {
        OrderSide::Buy => trade.ask,
        OrderSide::Sell => trade.bid,
    }
}

/// The half of a trade that belongs to the incoming order.
pub open spec fn incoming_half(trade: Trade, incoming_side: OrderSide) -> TradeInfo {
    match incoming_side {
        OrderSide::Buy => trade.bid,
        OrderSide::Sell => trade.ask,
    }
}

/// The pass after the incoming order met the resting order `id` of the level
/// at `price`. Nothing happens where the incoming order has nothing left or
/// the possible fill is below the resting order's minimum.
pub open spec fn visit(incoming: Order, price: Price, id: OrderId, pass: Pass) -> Pass {
    if pass.available == 0 || !pass.orders.contains_key(id) {
        pass
    } else {
        let resting = pass.orders[id];
        let quantity = least(pass.available, resting.virtual_remaining_quantity);
        if quantity < resting.minimum_quantity {
            pass
        } else {
            Pass {
                available: (pass.available - quantity) as Quantity,
                orders: pass.orders.insert(
                    id,
                    Order {
                        virtual_remaining_quantity: (resting.virtual_remaining_quantity
                            - quantity) as Quantity,
                        ..resting
                    },
                ),
                trades: pass.trades.push(trade_between(incoming, id, price, quantity)),
            }
        }
    }
}

/// The pass after the incoming order met the first `n` orders of a level,
/// oldest first.
pub open spec fn sweep_level(incoming: Order, level: LevelView, n: nat, pass: Pass) -> Pass
    decreases n,
{
    if n == 0 {
        pass
    } else {
        visit(
            incoming,
            level.price,
            level.ids[n - 1],
            sweep_level(incoming, level, (n - 1) as nat, pass),
        )
    }
}

/// The pass after the incoming order went through the first `m` levels, best
/// first.
pub open spec fn sweep_levels(incoming: Order, levels: Seq<LevelView>, m: nat, pass: Pass) -> Pass
    decreases m,
{
    if m == 0 {
        pass
    } else {
        sweep_level(
            incoming,
            levels[m - 1],
            levels[m - 1].ids.len(),
            sweep_levels(incoming, levels, (m - 1) as nat, pass),
        )
    }
}

/// The registry once tentative quantities are made final: every order's
/// remaining quantity becomes its tentative one, and an order left with
/// nothing leaves.
pub open spec fn settled(orders: Map<OrderId, Order>) -> Map<OrderId, Order> {
    Map::new(
        |id: OrderId| orders.contains_key(id) && orders[id].virtual_remaining_quantity > 0,
        |id: OrderId|
            Order { remaining_quantity: orders[id].virtual_remaining_quantity, ..orders[id] },
    )
}

/// Whether the aggregate fill reaches the incoming order's minimum: the
/// initial quantity less what the pass left available, against the minimum.
pub open spec fn accepts(incoming: Order, pass: Pass) -> bool {
    incoming.initial_quantity - pass.available >= incoming.minimum_quantity
}

/// The order may rest: it is a normal order with quantity left.
pub open spec fn rests(order: Order) -> bool {
    order.type_ == OrderType::Normal && order.remaining_quantity > 0
}

/// The order that a modification puts in place of `existing`: identity
/// and terms from `new`, remaining and minimum quantity from `existing`.
pub open spec fn reissued(existing: Order, new: Order) -> Order {
    Order {
        type_: new.type_,
        id: new.id,
        side: new.side,
        price: new.price,
        initial_quantity: new.initial_quantity,
        remaining_quantity: existing.remaining_quantity,
        minimum_quantity: existing.minimum_quantity,
        virtual_remaining_quantity: existing.remaining_quantity,
    }
}

impl BookView {
    /// The levels of the given side.
    pub open spec fn side(self, side: OrderSide) -> Seq<LevelView> {
        match side {
            OrderSide::Buy => self.bids,
            OrderSide::Sell => self.asks,
        }
    }

    /// The book with the levels of the given side replaced.
    pub open spec fn with_side(self, side: OrderSide, levels: Seq<LevelView>) -> BookView {
        match side {
            OrderSide::Buy => BookView { bids: levels, ..self },
            OrderSide::Sell => BookView { asks: levels, ..self },
        }
    }

    /// The book between requests, but for the orders in `touched`, whose
    /// tentative quantity may be below their remaining one.
    pub open spec fn wf_but(self, touched: Set<OrderId>) -> bool {
        &&& ordered(self.asks, false)
        &&& ordered(self.bids, true)
        &&& all_occupied(self.asks)
        &&& all_occupied(self.bids)
        &&& side_registered(self.asks, OrderSide::Sell, self.orders)
        &&& side_registered(self.bids, OrderSide::Buy, self.orders)
        &&& forall|id: OrderId| #[trigger]
            self.orders.contains_key(id) ==> {
                let order = self.orders[id];
                &&& order.id == id
                &&& order.type_ == OrderType::Normal
                &&& order.remaining_quantity > 0
                &&& order.virtual_remaining_quantity <= order.remaining_quantity
                &&& touched.contains(id) || order.at_rest()
                &&& listed(self.side(order.side), order.price, id)
            }
    }

    /// The book between requests: both sides in strict price priority and
    /// without empty levels; an order is registered exactly if it stands,
    /// once, in the level of its price on its side; every registered order is
    /// a normal order at rest with quantity left.
    pub open spec fn wf(self) -> bool {
        self.wf_but(Set::empty())
    }

    /// The incoming order meets a price on the other side: the best ask is
    /// at or below a buyer's price, the best bid at or above a seller's.
    pub open spec fn crosses(self, incoming: Order) -> bool {
        match incoming.side {
            OrderSide::Buy => self.asks.len() > 0 && self.asks[0].price <= incoming.price,
            OrderSide::Sell => self.bids.len() > 0 && self.bids[0].price >= incoming.price,
        }
    }

    /// The book once the tentative quantities of a pass are given up.
    pub open spec fn rolled_back(self) -> BookView {
        BookView { orders: restored(self.orders), ..self }
    }

    /// The pass of the incoming order over the whole other side, before
    /// anything is made final.
    pub open spec fn tentative(self, incoming: Order) -> Pass {
        let levels = self.side(other_side(incoming.side));
        sweep_levels(
            incoming,
            levels,
            levels.len(),
            Pass {
                available: incoming.virtual_remaining_quantity,
                orders: self.orders,
                trades: Seq::empty(),
            },
        )
    }

    /// The candidate trades are made final: the order crosses and the
    /// aggregate fill reaches its minimum.
    pub open spec fn fills(self, incoming: Order) -> bool {
        self.crosses(incoming) && accepts(incoming, self.tentative(incoming))
    }

    /// The book in the middle of a pass, with the tentative registry of the
    /// pass in place of its own.
    pub open spec fn amid(self, pass: Pass) -> BookView {
        BookView { orders: pass.orders, ..self }
    }

    /// The book once the tentative quantities of a pass of an order of side
    /// `side` are made final: the registry is settled, and the other side
    /// keeps the orders that are still registered.
    pub open spec fn committed(self, side: OrderSide) -> BookView {
        let orders = settled(self.orders);
        BookView { orders, ..self }.with_side(
            other_side(side),
            pruned(self.side(other_side(side)), orders.dom()),
        )
    }

    /// The trades that the incoming order produces.
    pub open spec fn trades_of(self, incoming: Order) -> Seq<Trade> {
        if self.fills(incoming) {
            self.tentative(incoming).trades
        } else {
            Seq::empty()
        }
    }

    /// The incoming order after its pass.
    pub open spec fn order_after(self, incoming: Order) -> Order {
        if self.fills(incoming) {
            let left = self.tentative(incoming).available;
            Order { remaining_quantity: left, virtual_remaining_quantity: left, ..incoming }
        } else {
            incoming
        }
    }

    /// The book after the pass of the incoming order, before the order
    /// itself is put to rest.
    pub open spec fn after_pass(self, incoming: Order) -> BookView {
        if self.fills(incoming) {
            self.amid(self.tentative(incoming)).committed(incoming.side)
        } else {
            self
        }
    }

    /// The book with `order` registered and appended to the level of its
    /// price on its side.
    pub open spec fn with_resting(self, order: Order) -> BookView {
        BookView { orders: self.orders.insert(order.id, order), ..self }.with_side(
            order.side,
            with_order(self.side(order.side), order.side == OrderSide::Buy, order.price, order.id),
        )
    }

    /// The book after the incoming order was matched and, where it may
    /// rest, put to rest.
    pub open spec fn after_match(self, incoming: Order) -> BookView {
        let order = self.order_after(incoming);
        if rests(order) {
            self.after_pass(incoming).with_resting(order)
        } else {
            self.after_pass(incoming)
        }
    }

    /// The book without the order `id`.
    pub open spec fn after_cancel(self, id: OrderId) -> BookView {
        if self.orders.contains_key(id) {
            let order = self.orders[id];
            BookView { orders: self.orders.remove(id), ..self }.with_side(
                order.side,
                without_order(self.side(order.side), order.price, id),
            )
        } else {
            self
        }
    }

    /// What a cancellation of `id` reports.
    pub open spec fn cancelled(self, kind: CancelRequestType, id: OrderId) -> Option<
        CancelledOrder,
    > {
        if self.orders.contains_key(id) {
            Some(CancelledOrder { cancel_request_type: kind, order: self.orders[id] })
        } else {
            None
        }
    }

    /// Why a modification to `new` is turned away, if it is.
    pub open spec fn modify_fault(self, new: Order) -> Option<OrderbookError> {
        if !self.orders.contains_key(new.id) {
            Some(OrderbookError::OrderNotFound)
        } else if self.orders[new.id].type_ != new.type_ {
            Some(OrderbookError::TypeMismatch)
        } else if self.orders[new.id].side != new.side {
            Some(OrderbookError::SideMismatch)
        } else if self.orders[new.id].initial_quantity - self.orders[new.id].remaining_quantity
            > new.initial_quantity {
            Some(OrderbookError::QuantityBelowFilled)
        } else {
            None
        }
    }

    /// The book after a modification to `new`.
    pub open spec fn after_modify(self, new: Order) -> BookView {
        if self.modify_fault(new) is None {
            self.after_cancel(new.id).after_match(reissued(self.orders[new.id], new))
        } else {
            self
        }
    }

    /// The trades that a modification to `new` produces.
    pub open spec fn modify_trades(self, new: Order) -> Seq<Trade> {
        if self.modify_fault(new) is None {
            self.after_cancel(new.id).trades_of(reissued(self.orders[new.id], new))
        } else {
            Seq::empty()
        }
    }

    /// The book after a request.
    pub open spec fn after_request(self, request: OrderRequest) -> BookView {
        match request {
            OrderRequest::Trade(trade_request) => {
                if trade_request.fault() is None && !self.orders.contains_key(trade_request.id) {
                    self.after_match(trade_request.order())
                } else {
                    self
                }
            },
            OrderRequest::Cancel(_, id) => self.after_cancel(id),
            OrderRequest::Modify(trade_request) => {
                if trade_request.fault() is None {
                    self.after_modify(trade_request.order())
                } else {
                    self
                }
            },
        }
    }

    /// The updates that a request produces, in the order of their emission.
    pub open spec fn updates_of(self, request: OrderRequest) -> Seq<MarketDataUpdate> {
        match request {
            OrderRequest::Trade(trade_request) => {
                if trade_request.fault() is None && !self.orders.contains_key(trade_request.id) {
                    as_updates(self.trades_of(trade_request.order()))
                } else {
                    Seq::empty()
                }
            },
            OrderRequest::Cancel(kind, id) => match self.cancelled(kind, id) {
                Some(cancelled) => seq![MarketDataUpdate::Cancellation(cancelled)],
                None => Seq::empty(),
            },
            OrderRequest::Modify(trade_request) => {
                let new = trade_request.order();
                if trade_request.fault() is None && self.modify_fault(new) is None {
                    seq![
                        MarketDataUpdate::Cancellation(
                            CancelledOrder {
                                cancel_request_type: CancelRequestType::Internal,
                                order: self.orders[new.id],
                            },
                        ),
                    ] + as_updates(self.modify_trades(new))
                } else {
                    Seq::empty()
                }
            },
        }
    }
}

/// What a trade takes from the order `id`: the quantity of each half that
/// carries this identifier.
pub open spec fn share(trade: Trade, id: OrderId) -> nat {
    let of_bid: nat = if trade.bid.order_id == id {
        trade.bid.quantity as nat
    } else {
        0
    };
    let of_ask: nat = if trade.ask.order_id == id {
        trade.ask.quantity as nat
    } else {
        0
    };
    of_bid + of_ask
}

/// The quantity that the trades take from the order `id`, all told.
pub open spec fn traded(trades: Seq<Trade>, id: OrderId) -> nat
    decreases trades.len(),
{
    if trades.len() == 0 {
        0
    } else {
        traded(trades.drop_last(), id) + share(trades.last(), id)
    }
}

/// The identifiers of the resting orders that the trades involve.
pub open spec fn resting_ids(trades: Seq<Trade>, incoming_side: OrderSide) -> Set<OrderId> {
    Set::new(
        |id: OrderId|
            exists|k: int|
                0 <= k < trades.len() && resting_half(#[trigger] trades[k], incoming_side).order_id
                    == id,
    )
}

/// The registry with every tentative quantity put back to the remaining one.
pub open spec fn restored(orders: Map<OrderId, Order>) -> Map<OrderId, Order> {
    Map::new(
        |id: OrderId| orders.contains_key(id),
        |id: OrderId|
            Order { virtual_remaining_quantity: orders[id].remaining_quantity, ..orders[id] },
    )
}

/// A candidate trade of a pass of `incoming` over `book` is sound: the
/// incoming half carries the incoming order's identifier and price, both
/// halves the same quantity; the resting half names a registered order of
/// the other side at its price, and its quantity is at least that order's
/// minimum and at most what the order has.
pub open spec fn trade_sound(book: BookView, incoming: Order, trade: Trade) -> bool {
    let own = incoming_half(trade, incoming.side);
    let theirs = resting_half(trade, incoming.side);
    &&& own.order_id == incoming.id
    &&& own.price == incoming.price
    &&& own.quantity == theirs.quantity
    &&& book.orders.contains_key(theirs.order_id)
    &&& book.orders[theirs.order_id].side == other_side(incoming.side)
    &&& book.orders[theirs.order_id].price == theirs.price
    &&& theirs.quantity >= book.orders[theirs.order_id].minimum_quantity
    &&& theirs.quantity <= book.orders[theirs.order_id].remaining_quantity
}

/// What holds of a pass of `incoming` over `book` at every stage: the
/// registry holds the same orders, changed in their tentative quantity only;
/// what an order lost tentatively is what the candidate trades take from it,
/// and likewise for the incoming order; an order that no candidate trade
/// names is unchanged; every candidate trade is sound.
pub open spec fn pass_sound(book: BookView, incoming: Order, pass: Pass) -> bool {
    &&& pass.orders.dom() == book.orders.dom()
    &&& pass.available + traded(pass.trades, incoming.id) == incoming.virtual_remaining_quantity
    &&& forall|id: OrderId| #[trigger]
        book.orders.contains_key(id) ==> {
            let before = book.orders[id];
            let now = pass.orders[id];
            &&& now == Order {
                virtual_remaining_quantity: now.virtual_remaining_quantity,
                ..before
            }
            &&& now.virtual_remaining_quantity + traded(pass.trades, id)
                == before.virtual_remaining_quantity
            &&& now == before || resting_ids(pass.trades, incoming.side).contains(id)
        }
    &&& forall|k: int|
        0 <= k < pass.trades.len() ==> trade_sound(book, incoming, #[trigger] pass.trades[k])
}

/// No resting order asks for more than one unit at a time, so that no
/// minimum ever stands in the way of a fill.
pub open spec fn minimums_idle(book: BookView) -> bool {
    forall|id: OrderId| #[trigger]
        book.orders.contains_key(id) ==> book.orders[id].minimum_quantity <= 1
}

/// The book is not crossed: one side is empty, or the best bid is below the
/// best ask.
pub open spec fn uncrossed(book: BookView) -> bool {
    book.bids.len() == 0 || book.asks.len() == 0 || book.bids[0].price < book.asks[0].price
}

/// No resting order has more left than its initial quantity.
pub open spec fn within_initial(book: BookView) -> bool {
    forall|id: OrderId| #[trigger]
        book.orders.contains_key(id) ==> book.orders[id].remaining_quantity
            <= book.orders[id].initial_quantity
}

/// The book after a run of requests, served one after the other.
pub open spec fn after_requests(book: BookView, requests: Seq<OrderRequest>) -> BookView
    decreases requests.len(),
{
    if requests.len() == 0 {
        book
    } else {
        after_requests(book, requests.drop_last()).after_request(requests.last())
    }
}

/// The trades as market data updates, one for one.
pub open spec fn as_updates(trades: Seq<Trade>) -> Seq<MarketDataUpdate> {
    Seq::new(trades.len(), |i: int| MarketDataUpdate::Trade(trades[i]))
}

} // verus!
