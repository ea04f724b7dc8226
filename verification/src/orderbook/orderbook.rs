//! The matching engine: the book and the requests it serves.

use super::laws::lemma_tentative_positive;
use super::lemmas::{
    lemma_after_cancel_wf, lemma_amid_wf, lemma_pruned_all, lemma_pruned_twice, lemma_replaced_wf,
    lemma_resting_ids_next, lemma_rolled_back_wf, lemma_sweep_level_exhausted,
    lemma_sweep_levels_exhausted, lemma_tentative_sound, lemma_with_resting_wf,
    lemma_without_order_pruned, opening, resting_known, restored_among, settled_among,
};
use super::model::{
    accepts, as_updates, least, other_side, pruned, reissued, resting_ids, restored, settled,
    sweep_level, sweep_levels, trade_between, trade_sound, BookView, Pass,
};
use super::orderlevels::{
    lemma_level_unique, lemma_without_empty_occupied, ordered, prices_of, AskOrderLevels,
    BidOrderLevels, OrderLevels,
};
use super::{
    CancelledOrder, MarketDataUpdate, Order, OrderId, OrderSide, OrderType, OrderbookError,
    Quantity, Trade, TradeInfo,
};
use crate::channel::send;
use crate::metrics::{increment, Metrics};
use crate::web_server::{CancelRequestType, OrderRequest};
use crossbeam::channel::Sender;
use std::collections::HashMap;
use vstd::prelude::*;

verus! {

broadcast use vstd::std_specs::hash::group_hash_axioms;

/// The book of one instrument: the price levels of both sides, the registry
/// of resting orders, and the channel on which updates are published.
#[derive(Debug)]
pub struct Orderbook {
    ask_levels: AskOrderLevels,
    bid_levels: BidOrderLevels,
    orders: HashMap<OrderId, Order>,
    market_data_update_sender: Option<Sender<MarketDataUpdate>>,
    metrics: Option<Metrics>,
}

impl View for Orderbook {
    type V = BookView;

    closed spec fn view(&self) -> BookView {
        BookView { asks: self.ask_levels@, bids: self.bid_levels@, orders: self.orders@ }
    }
}

/// The smaller of two quantities.
fn lesser(a: Quantity, b: Quantity) -> (least_of: Quantity)
    ensures
        least_of == least(a, b),
{
    if a <= b {
        a
    } else {
        b
    }
}

/// The trades as market data updates, one for one.
fn trade_updates(trades: &Vec<Trade>) -> (updates: Vec<MarketDataUpdate>)
    ensures
        updates@ == as_updates(trades@),
{
    let mut updates: Vec<MarketDataUpdate> = Vec::new();
    let mut i: usize = 0;
    while i < trades.len()
        invariant
            i <= trades.len(),
            updates@ == as_updates(trades@.take(i as int)),
        decreases trades.len() - i,
    {
        updates.push(MarketDataUpdate::Trade(trades[i]));
        i += 1;
        assert(updates@ =~= as_updates(trades@.take(i as int)));
    }
    assert(trades@.take(i as int) =~= trades@);
    updates
}

/// Runs the incoming order over one side, best price first and oldest
/// order first within a price, and records every candidate fill: in the
/// tentative quantities of the registry and of the order, and as a trade.
fn sweep_side<L: OrderLevels>(
    levels: &L,
    orders: &mut HashMap<OrderId, Order>,
    order: &mut Order,
) -> (trades: Vec<Trade>)
    requires
        ordered(levels@, L::descending()),
    ensures
        (Pass {
            available: final(order).virtual_remaining_quantity,
            orders: final(orders)@,
            trades: trades@,
        }) == sweep_levels(
            *old(order),
            levels@,
            levels@.len(),
            Pass {
                available: old(order).virtual_remaining_quantity,
                orders: old(orders)@,
                trades: Seq::empty(),
            },
        ),
        *final(order) == (Order {
            virtual_remaining_quantity: final(order).virtual_remaining_quantity,
            ..*old(order)
        }),
{
    let ghost incoming = *order;
    let ghost start = Pass {
        available: order.virtual_remaining_quantity,
        orders: orders@,
        trades: Seq::empty(),
    };
    let mut trades: Vec<Trade> = Vec::new();
    let price_levels = levels.get_prices();
    let mut i: usize = 0;
    while i < price_levels.len() && order.virtual_remaining_quantity > 0
        invariant
            i <= price_levels.len(),
            price_levels@ == prices_of(levels@),
            ordered(levels@, L::descending()),
            (Pass {
                available: order.virtual_remaining_quantity,
                orders: orders@,
                trades: trades@,
            }) == sweep_levels(incoming, levels@, i as nat, start),
            *order == (Order {
                virtual_remaining_quantity: order.virtual_remaining_quantity,
                ..incoming
            }),
        decreases price_levels.len() - i,
    {
        let price_level = price_levels[i];
        let ghost level = levels@[i as int];
        let ghost entering = Pass {
            available: order.virtual_remaining_quantity,
            orders: orders@,
            trades: trades@,
        };
        proof {
            lemma_level_unique(levels@, L::descending(), price_level, i as int);
        }
        if let Some(opposing_orders) = levels.get_orders(&price_level) {
            let mut j: usize = 0;
            while j < opposing_orders.len() && order.virtual_remaining_quantity > 0
                invariant
                    j <= opposing_orders.len(),
                    opposing_orders@ == level.ids,
                    level.price == price_level,
                    (Pass {
                        available: order.virtual_remaining_quantity,
                        orders: orders@,
                        trades: trades@,
                    }) == sweep_level(incoming, level, j as nat, entering),
                    *order == (Order {
                        virtual_remaining_quantity: order.virtual_remaining_quantity,
                        ..incoming
                    }),
                decreases opposing_orders.len() - j,
            {
                let opposing_order_id = opposing_orders[j];
                let found = match orders.get(&opposing_order_id) {
                    Some(resting) => Some(*resting),
                    None => None,
                };
                if let Some(opposing_order) = found {
                    let quantity = lesser(
                        order.virtual_remaining_quantity,
                        opposing_order.virtual_remaining_quantity,
                    );
                    if quantity >= opposing_order.minimum_quantity {
                        order.virtual_remaining_quantity = order.virtual_remaining_quantity
                            - quantity;
                        let mut tentative_order = opposing_order;
                        tentative_order.virtual_remaining_quantity =
                            opposing_order.virtual_remaining_quantity - quantity;
                        orders.insert(opposing_order_id, tentative_order);
                        let order_trade_info = TradeInfo {
                            order_id: order.id,
                            price: order.price,
                            quantity,
                        };
                        let opposing_order_trade_info = TradeInfo {
                            order_id: opposing_order_id,
                            price: price_level,
                            quantity,
                        };
                        let trade = match order.side {
                            OrderSide::Buy => Trade {
                                bid: order_trade_info,
                                ask: opposing_order_trade_info,
                            },
                            OrderSide::Sell => Trade {
                                bid: opposing_order_trade_info,
                                ask: order_trade_info,
                            },
                        };
                        assert(trade == trade_between(
                            incoming,
                            opposing_order_id,
                            price_level,
                            quantity,
                        ));
                        trades.push(trade);
                    }
                }
                j += 1;
            }
            proof {
                if j < opposing_orders.len() {
                    lemma_sweep_level_exhausted(
                        incoming,
                        level,
                        j as nat,
                        level.ids.len(),
                        entering,
                    );
                }
            }
        }
        i += 1;
    }
    proof {
        if i < price_levels.len() {
            lemma_sweep_levels_exhausted(incoming, levels@, i as nat, levels@.len(), start);
        }
    }
    trades
}

impl Orderbook {
    /// The book is as it must be between requests.
    pub open spec fn wf(&self) -> bool {
        self@.wf()
    }

    /// The channel on which the book publishes its updates, if it has one.
    pub closed spec fn sender(&self) -> Option<Sender<MarketDataUpdate>> {
        self.market_data_update_sender
    }

    /// The metrics in which the book counts, if it has any.
    pub closed spec fn metrics(&self) -> Option<Metrics> {
        self.metrics
    }

    /// The book publishes on the channel and counts in the metrics of
    /// `before`.
    pub open spec fn same_outlets(&self, before: &Self) -> bool {
        self.sender() == before.sender() && self.metrics() == before.metrics()
    }

    /// An empty book that publishes its updates on the given channel, if
    /// there is one, and counts nowhere.
    pub fn new(market_data_update_sender: Option<Sender<MarketDataUpdate>>) -> (book: Self)
        ensures
            book.wf(),
            book.sender() == market_data_update_sender,
            book.metrics() is None,
            book@.asks.len() == 0,
            book@.bids.len() == 0,
            book@.orders == Map::<OrderId, Order>::empty(),
    {
        Self {
            ask_levels: AskOrderLevels::new(),
            bid_levels: BidOrderLevels::new(),
            orders: HashMap::new(),
            market_data_update_sender,
            metrics: None,
        }
    }

    /// An empty book like that of `new`, which also counts in `metrics` the
    /// orders it receives, the orders it fills in full and the trades it
    /// makes.
    pub fn with_metrics(
        market_data_update_sender: Option<Sender<MarketDataUpdate>>,
        metrics: Metrics,
    ) -> (book: Self)
        ensures
            book.wf(),
            book.sender() == market_data_update_sender,
            book.metrics() == Some(metrics),
            book@.asks.len() == 0,
            book@.bids.len() == 0,
            book@.orders == Map::<OrderId, Order>::empty(),
    {
        Self {
            ask_levels: AskOrderLevels::new(),
            bid_levels: BidOrderLevels::new(),
            orders: HashMap::new(),
            market_data_update_sender,
            metrics: Some(metrics),
        }
    }

    /// Counts one more order received.
    fn count_order(&self) {
        if let Some(metrics) = &self.metrics {
            increment(&metrics.order_counter);
        }
    }

    /// Counts one more order filled in full.
    fn count_filled(&self) {
        if let Some(metrics) = &self.metrics {
            increment(&metrics.orders_filled_counter);
        }
    }

    /// Counts one more trade made.
    fn count_trade(&self) {
        if let Some(metrics) = &self.metrics {
            increment(&metrics.trade_counter);
        }
    }

    /// Whether the best price of the other side meets the order's price.
    fn can_match_order(&self, order: &Order) -> (can: bool)
        ensures
            can == self@.crosses(*order),
    {
        match order.side {
            OrderSide::Buy => {
                if let Some(best_opposing_price) = self.ask_levels.get_best_price() {
                    return best_opposing_price <= order.price;
                }
            },
            OrderSide::Sell => {
                if let Some(best_opposing_price) = self.bid_levels.get_best_price() {
                    return best_opposing_price >= order.price;
                }
            },
        }
        false
    }

    /// Registers the order and appends it to the level of its price.
    fn insert_order(&mut self, order: Order)
        requires
            old(self).wf(),
            !old(self)@.orders.contains_key(order.id),
            order.type_ == OrderType::Normal,
            order.remaining_quantity > 0,
            order.at_rest(),
        ensures
            final(self)@ == old(self)@.with_resting(order),
            final(self).wf(),
            final(self).same_outlets(old(self)),
    {
        match order.side {
            OrderSide::Buy => self.bid_levels.insert_order(order.price, order.id),
            OrderSide::Sell => self.ask_levels.insert_order(order.price, order.id),
        }
        self.orders.insert(order.id, order);
        proof {
            lemma_with_resting_wf(old(self)@, order, Set::empty());
        }
    }

    /// Takes the order `order_id` off the book and reports it as it was,
    /// under the kind of request given. `None` where no such order rests.
    pub fn cancel_order(
        &mut self,
        cancel_request_type: CancelRequestType,
        order_id: OrderId,
    ) -> (cancelled: Option<CancelledOrder>)
        requires
            old(self).wf(),
        ensures
            cancelled == old(self)@.cancelled(cancel_request_type, order_id),
            final(self)@ == old(self)@.after_cancel(order_id),
            final(self).wf(),
            final(self).same_outlets(old(self)),
    {
        if let Some(order) = self.orders.remove(&order_id) {
            let price = order.price;
            let cancelled = match order.side {
                OrderSide::Buy => self.bid_levels.remove_order(&price, &order_id),
                OrderSide::Sell => self.ask_levels.remove_order(&price, &order_id),
            };
            proof {
                lemma_after_cancel_wf(old(self)@, order_id, Set::empty());
                let levels = old(self)@.side(order.side);
                let i = choose|i: int|
                    0 <= i < levels.len() && (#[trigger] levels[i]).price == price
                        && levels[i].ids.contains(order_id);
                lemma_level_unique(levels, order.side == OrderSide::Buy, price, i);
            }
            if cancelled {
                return Some(CancelledOrder { cancel_request_type, order });
            }
        }
        assert(self.orders@ =~= old(self).orders@);
        None
    }

    /// Gives up the candidate trades of a pass: every resting order that
    /// they name, and the incoming order, get their tentative quantity back.
    fn discard_trades(&mut self, order: &mut Order, trades: &Vec<Trade>)
        requires
            old(self)@.wf_but(resting_ids(trades@, old(order).side)),
        ensures
            final(self)@ == old(self)@.rolled_back(),
            final(self).wf(),
            final(self).same_outlets(old(self)),
            *final(order) == (Order {
                virtual_remaining_quantity: old(order).remaining_quantity,
                ..*old(order)
            }),
    {
        let ghost amid = self@;
        let ghost side = order.side;
        let mut k: usize = 0;
        assert(self.orders@ =~= restored_among(amid.orders, resting_ids(trades@.take(0), side)));
        while k < trades.len()
            invariant
                k <= trades.len(),
                *order == *old(order),
                side == order.side,
                self.same_outlets(old(self)),
                self.ask_levels@ == amid.asks,
                self.bid_levels@ == amid.bids,
                self.orders@ == restored_among(
                    amid.orders,
                    resting_ids(trades@.take(k as int), side),
                ),
            decreases trades.len() - k,
        {
            let opposing_order_id = match order.side {
                OrderSide::Buy => trades[k].ask.order_id,
                OrderSide::Sell => trades[k].bid.order_id,
            };
            let found = match self.orders.get(&opposing_order_id) {
                Some(resting) => Some(*resting),
                None => None,
            };
            if let Some(opposing_order) = found {
                let mut restored_order = opposing_order;
                restored_order.virtual_remaining_quantity = opposing_order.remaining_quantity;
                self.orders.insert(opposing_order_id, restored_order);
            }
            proof {
                lemma_resting_ids_next(trades@, side, k as int);
                assert(self.orders@ =~= restored_among(
                    amid.orders,
                    resting_ids(trades@.take(k + 1), side),
                ));
            }
            k += 1;
        }
        order.virtual_remaining_quantity = order.remaining_quantity;
        proof {
            assert(trades@.take(k as int) =~= trades@);
            assert(self.orders@ =~= restored(amid.orders)) by {
                assert forall|id: OrderId| amid.orders.contains_key(id) implies #[trigger] self.orders@[id]
                    == restored(amid.orders)[id] by {
                    assert(amid.orders.contains_key(id));
                }
            }
            lemma_rolled_back_wf(amid, resting_ids(trades@, side));
        }
    }

    /// Makes the candidate trades of a pass final: every resting order that
    /// they name, and the incoming order, keep their tentative quantity as
    /// the remaining one, and a resting order left with nothing leaves the
    /// book.
    fn commit_trades(&mut self, order: &mut Order, trades: &Vec<Trade>)
        requires
            old(self)@.wf_but(resting_ids(trades@, old(order).side)),
            forall|k: int|
                0 <= k < trades.len() ==> resting_known(
                    old(self)@,
                    old(order).side,
                    #[trigger] trades@[k],
                ),
        ensures
            final(self)@ == old(self)@.committed(old(order).side),
            final(self).wf(),
            final(self).same_outlets(old(self)),
            *final(order) == (Order {
                remaining_quantity: old(order).virtual_remaining_quantity,
                ..*old(order)
            }),
    {
        let ghost amid = self@;
        let ghost side = order.side;
        let ghost across = amid.side(other_side(side));
        let ghost touched = resting_ids(trades@, side);
        let mut k: usize = 0;
        proof {
            assert(self.orders@ =~= settled_among(amid.orders, resting_ids(trades@.take(0), side)));
            lemma_pruned_all(across, amid.orders.dom());
        }
        while k < trades.len()
            invariant
                k <= trades.len(),
                *order == *old(order),
                side == order.side,
                self.same_outlets(old(self)),
                amid == old(self)@,
                across == amid.side(other_side(side)),
                touched == resting_ids(trades@, side),
                amid.wf_but(touched),
                forall|w: int|
                    0 <= w < trades.len() ==> resting_known(amid, side, #[trigger] trades@[w]),
                self@.wf_but(touched),
                self@.side(side) == amid.side(side),
                self@.side(other_side(side)) == pruned(across, self.orders@.dom()),
                self.orders@ == settled_among(
                    amid.orders,
                    resting_ids(trades@.take(k as int), side),
                ),
            decreases trades.len() - k,
        {
            let ghost now = self@;
            let ghost done = resting_ids(trades@.take(k as int), side);
            let trade = trades[k];
            let opposing_order_id = match order.side {
                OrderSide::Buy => trade.ask.order_id,
                OrderSide::Sell => trade.bid.order_id,
            };
            proof {
                lemma_resting_ids_next(trades@, side, k as int);
                assert(resting_known(amid, side, trades@[k as int]));
                assert(amid.orders.contains_key(opposing_order_id));
            }
            let found = match self.orders.get(&opposing_order_id) {
                Some(resting) => Some(*resting),
                None => None,
            };
            if let Some(resting) = found {
                let mut opposing_order = resting;
                opposing_order.remaining_quantity = opposing_order.virtual_remaining_quantity;
                if opposing_order.remaining_quantity == 0 {
                    self.count_filled();
                    proof {
                        assert(!done.contains(opposing_order_id));
                        assert(resting == amid.orders[opposing_order_id]);
                        assert(now.orders.contains_key(opposing_order_id));
                        let levels = now.side(other_side(side));
                        let i = choose|i: int|
                            0 <= i < levels.len() && (#[trigger] levels[i]).price == resting.price
                                && levels[i].ids.contains(opposing_order_id);
                        assert forall|w: int|
                            0 <= w < levels.len() && w != i implies !(#[trigger] levels[w]).ids.contains(
                            opposing_order_id,
                        ) by {
                            if levels[w].ids.contains(opposing_order_id) {
                                let source = levels[w].ids;
                                let c = choose|c: int|
                                    0 <= c < source.len() && source[c] == opposing_order_id;
                                assert(levels[w].ids[c] == opposing_order_id);
                                lemma_level_unique(
                                    levels,
                                    other_side(side) == OrderSide::Buy,
                                    resting.price,
                                    w,
                                );
                                lemma_level_unique(
                                    levels,
                                    other_side(side) == OrderSide::Buy,
                                    resting.price,
                                    i,
                                );
                            }
                        }
                        lemma_without_order_pruned(
                            levels,
                            other_side(side) == OrderSide::Buy,
                            i,
                            opposing_order_id,
                        );
                        lemma_pruned_twice(
                            across,
                            now.orders.dom(),
                            Set::full().remove(opposing_order_id),
                        );
                        assert(now.orders.dom().intersect(Set::full().remove(opposing_order_id))
                            =~= now.orders.remove(opposing_order_id).dom());
                        lemma_after_cancel_wf(now, opposing_order_id, touched);
                    }
                    match opposing_order.side {
                        OrderSide::Buy => {
                            self.bid_levels.remove_order(&trade.bid.price, &opposing_order_id);
                        },
                        OrderSide::Sell => {
                            self.ask_levels.remove_order(&trade.ask.price, &opposing_order_id);
                        },
                    }
                    self.orders.remove(&opposing_order_id);
                    proof {
                        assert(self@ == now.after_cancel(opposing_order_id));
                    }
                } else {
                    proof {
                        lemma_replaced_wf(now, opposing_order, touched);
                        assert(now.orders.insert(opposing_order_id, opposing_order).dom()
                            =~= now.orders.dom());
                    }
                    self.orders.insert(opposing_order_id, opposing_order);
                }
            }
            self.count_trade();
            proof {
                assert(self.orders@ =~= settled_among(
                    amid.orders,
                    resting_ids(trades@.take(k + 1), side),
                ));
            }
            k += 1;
        }
        order.remaining_quantity = order.virtual_remaining_quantity;
        proof {
            assert(trades@.take(k as int) =~= trades@);
            assert(self.orders@ =~= settled(amid.orders)) by {
                assert forall|id: OrderId| amid.orders.contains_key(id) implies (
                #[trigger] self.orders@.contains_key(id)) == settled(amid.orders).contains_key(id)
                    && (self.orders@.contains_key(id) ==> self.orders@[id] == settled(
                    amid.orders,
                )[id]) by {
                    assert(amid.orders.contains_key(id));
                }
            }
            assert(self@.wf()) by {
                assert forall|id: OrderId| #[trigger] self@.orders.contains_key(id) implies self@.orders[id].at_rest() by {}
            }
            lemma_without_empty_occupied(self.ask_levels@);
            lemma_without_empty_occupied(self.bid_levels@);
        }
        self.ask_levels.remove_empty_levels();
        self.bid_levels.remove_empty_levels();
    }

    /// Runs the two phases of matching for an order that crosses: collects
    /// the candidate trades, then makes them final if the aggregate fill
    /// reaches the order's minimum, or gives them up.
    fn internal_match_order(&mut self, order: &mut Order) -> (trades: Vec<Trade>)
        requires
            old(self).wf(),
            !old(self)@.orders.contains_key(old(order).id),
            old(order).at_rest(),
        ensures
            final(self).wf(),
            final(self).same_outlets(old(self)),
            accepts(*old(order), old(self)@.tentative(*old(order))) ==> {
                let pass = old(self)@.tentative(*old(order));
                &&& trades@ == pass.trades
                &&& final(self)@ == old(self)@.amid(pass).committed(old(order).side)
                &&& *final(order) == (Order {
                    remaining_quantity: pass.available,
                    virtual_remaining_quantity: pass.available,
                    ..*old(order)
                })
            },
            !accepts(*old(order), old(self)@.tentative(*old(order))) ==> {
                &&& trades@ == Seq::<Trade>::empty()
                &&& final(self)@ == old(self)@
                &&& *final(order) == *old(order)
            },
            forall|k: int|
                0 <= k < trades@.len() ==> trade_sound(
                    old(self)@,
                    *old(order),
                    #[trigger] trades@[k],
                ) && trades@[k].bid.quantity >= 1,
    {
        let ghost book = self@;
        let ghost incoming = *order;
        let ghost pass = book.tentative(incoming);
        let trades = match order.side {
            OrderSide::Buy => sweep_side(&self.ask_levels, &mut self.orders, order),
            OrderSide::Sell => sweep_side(&self.bid_levels, &mut self.orders, order),
        };
        proof {
            assert(opening(book, incoming) == (Pass {
                available: incoming.virtual_remaining_quantity,
                orders: book.orders,
                trades: Seq::empty(),
            }));
            lemma_tentative_sound(book, incoming);
            lemma_tentative_positive(book, incoming);
            lemma_amid_wf(book, incoming, pass);
            assert(self@ == book.amid(pass));
        }
        if order.virtual_remaining_quantity <= order.initial_quantity && order.initial_quantity
            - order.virtual_remaining_quantity >= order.minimum_quantity {
            self.commit_trades(order, &trades);
            trades
        } else {
            self.discard_trades(order, &trades);
            Vec::new()
        }
    }

    /// Matches the order against the other side and, where it is a normal
    /// order with quantity left, puts it to rest. Returns the trades in the
    /// order of their making. An order whose identifier is on the book
    /// already is turned away.
    pub fn match_order(&mut self, order: Order) -> (result: Result<Vec<Trade>, OrderbookError>)
        requires
            old(self).wf(),
            order.at_rest(),
        ensures
            final(self).wf(),
            final(self).same_outlets(old(self)),
            old(self)@.orders.contains_key(order.id) ==> result == Err::<
                Vec<Trade>,
                OrderbookError,
            >(OrderbookError::DuplicateOrderId) && final(self)@ == old(self)@,
            !old(self)@.orders.contains_key(order.id) ==> final(self)@ == old(self)@.after_match(
                order,
            ) && (result matches Ok(trades) && trades@ == old(self)@.trades_of(order)),
            result matches Ok(trades) ==> forall|k: int|
                0 <= k < trades@.len() ==> trade_sound(old(self)@, order, #[trigger] trades@[k])
                    && trades@[k].bid.quantity >= 1,
    {
        let mut order = order;
        self.count_order();
        if self.orders.contains_key(&order.id) {
            return Err(OrderbookError::DuplicateOrderId);
        }
        proof {
            lemma_tentative_sound(self@, order);
        }
        let trades = if self.can_match_order(&order) {
            self.internal_match_order(&mut order)
        } else {
            Vec::new()
        };
        if order.type_ == OrderType::Normal && order.remaining_quantity > 0 {
            self.insert_order(order)
        }
        if order.remaining_quantity == 0 {
            self.count_filled();
        }
        Ok(trades)
    }

    /// Replaces a resting order: cancels it and submits it anew with the
    /// terms of `order`, keeping its remaining and its minimum quantity.
    /// Turned away where no such order rests, where the type or the side
    /// differs, or where the new quantity is below what is already filled.
    pub fn modify_order(&mut self, order: Order) -> (result: Result<
        (CancelledOrder, Vec<Trade>),
        OrderbookError,
    >)
        requires
            old(self).wf(),
        ensures
            final(self).wf(),
            final(self).same_outlets(old(self)),
            final(self)@ == old(self)@.after_modify(order),
            match old(self)@.modify_fault(order) {
                Some(fault) => result == Err::<(CancelledOrder, Vec<Trade>), OrderbookError>(fault),
                None => result matches Ok(done) && done.0 == (CancelledOrder {
                    cancel_request_type: CancelRequestType::Internal,
                    order: old(self)@.orders[order.id],
                }) && done.1@ == old(self)@.modify_trades(order),
            },
    {
        let existing_order = match self.orders.get(&order.id) {
            Some(existing) => *existing,
            None => {
                return Err(OrderbookError::OrderNotFound);
            },
        };
        if existing_order.type_ != order.type_ {
            return Err(OrderbookError::TypeMismatch);
        }
        if existing_order.side != order.side {
            return Err(OrderbookError::SideMismatch);
        }
        if existing_order.remaining_quantity <= existing_order.initial_quantity
            && existing_order.initial_quantity - existing_order.remaining_quantity
            > order.initial_quantity {
            return Err(OrderbookError::QuantityBelowFilled);
        }
        let cancelled_order = match self.cancel_order(CancelRequestType::Internal, order.id) {
            Some(cancelled) => cancelled,
            None => {
                return Err(OrderbookError::OrderNotFound);
            },
        };
        let fresh_order = Order {
            type_: order.type_,
            id: order.id,
            side: order.side,
            price: order.price,
            initial_quantity: order.initial_quantity,
            remaining_quantity: cancelled_order.order.remaining_quantity,
            virtual_remaining_quantity: cancelled_order.order.remaining_quantity,
            minimum_quantity: cancelled_order.order.minimum_quantity,
        };
        assert(fresh_order == reissued(old(self)@.orders[order.id], order));
        let trades = match self.match_order(fresh_order) {
            Ok(trades) => trades,
            Err(_) => Vec::new(),
        };
        Ok((cancelled_order, trades))
    }

    /// Serves one request and returns the updates it produces, in the order
    /// of their emission; each is also sent on the book's channel, where it
    /// has one. A request that is turned away produces no update and leaves
    /// the book as it was.
    pub fn place_trade_request(&mut self, order_request: OrderRequest) -> (result: Result<
        Vec<MarketDataUpdate>,
        OrderbookError,
    >)
        requires
            old(self).wf(),
        ensures
            final(self).wf(),
            final(self).same_outlets(old(self)),
            final(self)@ == old(self)@.after_request(order_request),
            result matches Ok(updates) && updates@ == old(self)@.updates_of(order_request),
    {
        let market_updates: Vec<MarketDataUpdate> = match order_request {
            OrderRequest::Trade(trade_request) => match Order::try_from(trade_request) {
                Ok(order) => match self.match_order(order) {
                    Ok(trades) => trade_updates(&trades),
                    Err(_) => Vec::new(),
                },
                Err(_) => Vec::new(),
            },
            OrderRequest::Cancel(cancel_request_type, order_id) => {
                match self.cancel_order(cancel_request_type, order_id) {
                    Some(cancelled_order) => {
                        let mut updates: Vec<MarketDataUpdate> = Vec::new();
                        updates.push(MarketDataUpdate::Cancellation(cancelled_order));
                        updates
                    },
                    None => Vec::new(),
                }
            },
            OrderRequest::Modify(trade_request) => match Order::try_from(trade_request) {
                Ok(order) => match self.modify_order(order) {
                    Ok((cancelled_order, trades)) => {
                        let mut updates: Vec<MarketDataUpdate> = Vec::new();
                        updates.push(MarketDataUpdate::Cancellation(cancelled_order));
                        let mut more = trade_updates(&trades);
                        updates.append(&mut more);
                        updates
                    },
                    Err(_) => Vec::new(),
                },
                Err(_) => Vec::new(),
            },
        };
        assert(market_updates@ =~= old(self)@.updates_of(order_request));
        if let Some(sender) = &self.market_data_update_sender {
            let mut i: usize = 0;
            while i < market_updates.len()
                invariant
                    i <= market_updates.len(),
                decreases market_updates.len() - i,
            {
                let _ = send(sender, market_updates[i]);
                i += 1;
            }
        }
        Ok(market_updates)
    }

    /// The selling side of the book.
    pub fn ask_levels(&self) -> (levels: &AskOrderLevels)
        ensures
            levels@ == self@.asks,
    {
        &self.ask_levels
    }

    /// The buying side of the book.
    pub fn bid_levels(&self) -> (levels: &BidOrderLevels)
        ensures
            levels@ == self@.bids,
    {
        &self.bid_levels
    }

    /// The resting order `order_id`, if there is one.
    pub fn get_order(&self, order_id: &OrderId) -> (order: Option<Order>)
        ensures
            order == (if self@.orders.contains_key(*order_id) {
                Some(self@.orders[*order_id])
            } else {
                None
            }),
    {
        match self.orders.get(order_id) {
            Some(order) => Some(*order),
            None => None,
        }
    }

    /// The number of resting orders.
    pub fn order_count(&self) -> (count: usize)
        ensures
            count == self@.orders.len(),
    {
        self.orders.len()
    }
}

impl Default for Orderbook {
    /// An empty book that publishes nothing.
    fn default() -> (book: Self)
        ensures
            book.wf(),
            book.sender() is None,
            book.metrics() is None,
            book@.asks.len() == 0,
            book@.bids.len() == 0,
            book@.orders == Map::<OrderId, Order>::empty(),
    {
        Self::new(None)
    }
}

} // verus!
