//! What holds of the engine on every book and every request.

use super::lemmas::{
    begins_with, kept_from, kept_from_some, lemma_after_cancel_wf, lemma_after_match_wf,
    lemma_opening_sound, lemma_pruned_shape, lemma_retained_contains, lemma_slot_exists,
    lemma_sweep_level_elsewhere, lemma_sweep_level_falls, lemma_sweep_level_grows,
    lemma_sweep_levels_drains, lemma_sweep_levels_elsewhere, lemma_sweep_levels_falls,
    lemma_sweep_levels_grows, lemma_tentative_sound, lemma_traded_none, lemma_without_order_shape,
    opening,
};
use super::model::{
    accepts, after_requests, incoming_half, least, minimums_idle, other_side, pruned, reissued,
    resting_half, rests, sweep_level, sweep_levels, trade_between, trade_sound, traded, uncrossed,
    visit, within_initial, BookView, Pass,
};
use super::orderlevels::{
    has_level, lemma_level_unique, level_at, ordered, precedes, slot, with_order, without_order,
    LevelView,
};
use super::{Order, OrderId, OrderSide, OrderType, Price, Trade};
use crate::web_server::OrderRequest;
use vstd::prelude::*;

verus! {

/// The quantity with which the order `id` rests on the book; nought where
/// it does not rest.
pub open spec fn resting_quantity(book: BookView, id: OrderId) -> nat {
    if book.orders.contains_key(id) {
        book.orders[id].remaining_quantity as nat
    } else {
        0
    }
}

/// What an incoming order loses for good: the quantity that a kill order
/// has left after its pass.
pub open spec fn discarded(book: BookView, incoming: Order) -> nat {
    if incoming.type_ == OrderType::Kill {
        book.order_after(incoming).remaining_quantity as nat
    } else {
        0
    }
}

/// Sound trades take nothing from an order that is neither the incoming one
/// nor on the book.
proof fn lemma_traded_stranger(book: BookView, incoming: Order, trades: Seq<Trade>, id: OrderId)
    requires
        forall|k: int| 0 <= k < trades.len() ==> trade_sound(book, incoming, #[trigger] trades[k]),
        id != incoming.id,
        !book.orders.contains_key(id),
    ensures
        traded(trades, id) == 0,
    decreases trades.len(),
{
    if trades.len() > 0 {
        let init = trades.drop_last();
        assert forall|k: int| 0 <= k < init.len() implies trade_sound(
            book,
            incoming,
            #[trigger] init[k],
        ) by {
            assert(init[k] == trades[k]);
        }
        lemma_traded_stranger(book, incoming, init, id);
        assert(trade_sound(book, incoming, trades[trades.len() - 1]));
    }
}

/// Conservation. When an order is matched, no quantity appears or is lost:
/// for the incoming order, what the trades take from it, what it rests with
/// and what a kill order discards add up to the quantity it came with; for
/// every other order, what the trades take from it and what it rests with
/// afterwards add up to what it rested with before.
pub proof fn law_conservation(book: BookView, incoming: Order, id: OrderId)
    requires
        book.wf(),
        !book.orders.contains_key(incoming.id),
        incoming.at_rest(),
    ensures
        traded(book.trades_of(incoming), id) + resting_quantity(book.after_match(incoming), id) + (
        if id == incoming.id {
            discarded(book, incoming)
        } else {
            0
        }) == (if id == incoming.id {
            incoming.remaining_quantity as nat
        } else {
            resting_quantity(book, id)
        }),
{
    let pass = book.tentative(incoming);
    lemma_tentative_sound(book, incoming);
    lemma_traded_none(id);
    if id != incoming.id {
        if book.orders.contains_key(id) {
            assert(pass.orders.contains_key(id));
        } else {
            lemma_traded_stranger(book, incoming, pass.trades, id);
        }
    }
}

/// Kill leaves no residue. After a kill order was matched, no order with
/// its identifier is on the book.
pub proof fn law_kill_leaves_no_residue(book: BookView, incoming: Order)
    requires
        book.wf(),
        !book.orders.contains_key(incoming.id),
        incoming.type_ == OrderType::Kill,
    ensures
        !book.after_match(incoming).orders.contains_key(incoming.id),
{
    lemma_tentative_sound(book, incoming);
}

/// Minimum fill. Every trade that a match produces gives the resting party
/// at least its minimum quantity, and both parties the same quantity; and
/// where a match produces trades at all, the incoming order's initial
/// quantity less what it has left reaches its own minimum.
pub proof fn law_minimum_fill(book: BookView, incoming: Order, k: int)
    requires
        book.wf(),
        !book.orders.contains_key(incoming.id),
        incoming.at_rest(),
        0 <= k < book.trades_of(incoming).len(),
    ensures
        ({
            let trade = book.trades_of(incoming)[k];
            let theirs = resting_half(trade, incoming.side);
            &&& book.orders.contains_key(theirs.order_id)
            &&& theirs.quantity >= book.orders[theirs.order_id].minimum_quantity
            &&& trade.bid.quantity == trade.ask.quantity
            &&& incoming_half(trade, incoming.side).order_id == incoming.id
        }),
        incoming.initial_quantity - book.order_after(incoming).remaining_quantity
            >= incoming.minimum_quantity,
{
    lemma_tentative_sound(book, incoming);
    assert(trade_sound(book, incoming, book.tentative(incoming).trades[k]));
}

/// Two-phase rollback. Where the aggregate fill of an incoming order stays
/// below its minimum, the match produces no trade and changes no resting
/// order: the book is as it was, but for the incoming order itself, which
/// is put to rest unchanged where it may rest.
pub proof fn law_rollback(book: BookView, incoming: Order)
    requires
        !accepts(incoming, book.tentative(incoming)),
    ensures
        book.trades_of(incoming) == Seq::<Trade>::empty(),
        book.after_pass(incoming) == book,
        book.order_after(incoming) == incoming,
        book.after_match(incoming) == (if rests(incoming) {
            book.with_resting(incoming)
        } else {
            book
        }),
{
}

/// Modify atomicity. A modification that is turned away leaves the book as
/// it was. One that is served leaves the order, where it still rests, with
/// the price and the initial quantity asked for, with its old minimum, and
/// with its old remaining quantity less what the trades of its new entry
/// took; where there was no such trade, it rests with its old remaining
/// quantity.
pub proof fn law_modify_atomic(book: BookView, new: Order)
    requires
        book.wf(),
    ensures
        book.modify_fault(new) is Some ==> book.after_modify(new) == book && book.modify_trades(new)
            == Seq::<Trade>::empty(),
        book.modify_fault(new) is None ==> {
            let after = book.after_modify(new);
            let existing = book.orders[new.id];
            &&& after.orders.contains_key(new.id) ==> {
                &&& after.orders[new.id].price == new.price
                &&& after.orders[new.id].initial_quantity == new.initial_quantity
                &&& after.orders[new.id].minimum_quantity == existing.minimum_quantity
                &&& after.orders[new.id].remaining_quantity + traded(
                    book.modify_trades(new),
                    new.id,
                ) == existing.remaining_quantity
            }
            &&& book.modify_trades(new).len() == 0 ==> after.orders.contains_key(new.id)
                && after.orders[new.id].remaining_quantity == existing.remaining_quantity
        },
{
    if book.modify_fault(new) is None {
        let existing = book.orders[new.id];
        let between = book.after_cancel(new.id);
        let again = super::model::reissued(existing, new);
        super::lemmas::lemma_after_cancel_wf(book, new.id, Set::empty());
        lemma_tentative_sound(between, again);
        law_conservation(between, again, new.id);
        lemma_traded_none(new.id);
        let pass = between.tentative(again);
        if between.fills(again) && pass.trades.len() == 0 {
            assert(traded(pass.trades, new.id) == 0);
        }
    }
}

/// The book stays sound. Whatever the request, the book that it leaves is
/// as a book must be between requests: both sides in strict price priority
/// and without empty levels; an order registered exactly if it stands, once,
/// in the level of its price on its side; every registered order a normal
/// order at rest with quantity left.
pub proof fn law_book_stays_sound(book: BookView, request: OrderRequest)
    requires
        book.wf(),
    ensures
        book.after_request(request).wf(),
{
    match request {
        OrderRequest::Trade(trade_request) => {
            if trade_request.fault() is None && !book.orders.contains_key(trade_request.id) {
                lemma_after_match_wf(book, trade_request.order());
            }
        },
        OrderRequest::Cancel(_, id) => {
            if book.orders.contains_key(id) {
                lemma_after_cancel_wf(book, id, Set::empty());
            }
        },
        OrderRequest::Modify(trade_request) => {
            let new = trade_request.order();
            if trade_request.fault() is None && book.modify_fault(new) is None {
                lemma_after_cancel_wf(book, new.id, Set::empty());
                lemma_after_match_wf(book.after_cancel(new.id), reissued(book.orders[new.id], new));
            }
        },
    }
}

/// The book stays sound through every run of requests.
pub proof fn law_sound_after_every_request(book: BookView, requests: Seq<OrderRequest>)
    requires
        book.wf(),
    ensures
        after_requests(book, requests).wf(),
    decreases requests.len(),
{
    if requests.len() > 0 {
        law_sound_after_every_request(book, requests.drop_last());
        law_book_stays_sound(after_requests(book, requests.drop_last()), requests.last());
    }
}

/// Remaining within initial. Where no resting order has more left than its
/// initial quantity, none has after a request, unless the request is a
/// modification to less than the order has left.
pub proof fn law_remaining_within_initial(book: BookView, request: OrderRequest)
    requires
        book.wf(),
        within_initial(book),
        request matches OrderRequest::Modify(trade_request) ==> book.orders.contains_key(
            trade_request.id,
        ) && book.orders[trade_request.id].remaining_quantity <= trade_request.quantity,
    ensures
        within_initial(book.after_request(request)),
{
    match request {
        OrderRequest::Trade(trade_request) => {
            if trade_request.fault() is None && !book.orders.contains_key(trade_request.id) {
                lemma_match_within_initial(book, trade_request.order());
            }
        },
        OrderRequest::Cancel(_, id) => {
            assert forall|other: OrderId| #[trigger]
                book.after_cancel(id).orders.contains_key(other) implies book.orders.contains_key(
                other,
            ) by {}
        },
        OrderRequest::Modify(trade_request) => {
            let new = trade_request.order();
            if trade_request.fault() is None && book.modify_fault(new) is None {
                let between = book.after_cancel(new.id);
                assert forall|other: OrderId| #[trigger]
                    between.orders.contains_key(other) implies book.orders.contains_key(other) by {}
                lemma_after_cancel_wf(book, new.id, Set::empty());
                lemma_match_within_initial(between, reissued(book.orders[new.id], new));
            }
        },
    }
}

/// Matching an order that has no more left than its initial quantity keeps
/// every resting order within its initial quantity.
proof fn lemma_match_within_initial(book: BookView, incoming: Order)
    requires
        book.wf(),
        within_initial(book),
        !book.orders.contains_key(incoming.id),
        incoming.at_rest(),
        incoming.remaining_quantity <= incoming.initial_quantity,
    ensures
        within_initial(book.after_match(incoming)),
{
    let pass = book.tentative(incoming);
    let after = book.after_match(incoming);
    lemma_tentative_sound(book, incoming);
    assert forall|id: OrderId| #[trigger] after.orders.contains_key(id) implies after.orders[id].remaining_quantity
        <= after.orders[id].initial_quantity by {
        if id != incoming.id {
            assert(book.orders.contains_key(id));
            assert(pass.orders.contains_key(id));
        }
    }
}

/// The best price of a side after an order joined it is the order's price
/// or the best price before.
proof fn lemma_best_with_order(levels: Seq<LevelView>, descending: bool, price: Price, id: OrderId)
    requires
        ordered(levels, descending),
    ensures
        with_order(levels, descending, price, id).len() > 0,
        with_order(levels, descending, price, id)[0].price == price || (levels.len() > 0
            && with_order(levels, descending, price, id)[0].price == levels[0].price),
        !precedes(descending, price, with_order(levels, descending, price, id)[0].price),
{
    lemma_slot_exists(levels, descending, price);
    if has_level(levels, price) {
        let i = level_at(levels, price);
        assert(levels[i].price == price);
        if i > 0 {
            assert(precedes(descending, levels[0].price, levels[i].price));
        }
    } else {
        let k = slot(levels, descending, price);
        if k > 0 {
            assert(precedes(descending, levels[0].price, price));
        }
    }
}

/// The best price of a side after an order left it is no better than the
/// best price before.
proof fn lemma_best_without_order(levels: Seq<LevelView>, descending: bool, i: int, id: OrderId)
    requires
        ordered(levels, descending),
        0 <= i < levels.len(),
        levels[i].ids.no_duplicates(),
        levels[i].ids.contains(id),
    ensures
        without_order(levels, levels[i].price, id).len() > 0 ==> !precedes(
            descending,
            without_order(levels, levels[i].price, id)[0].price,
            levels[0].price,
        ),
{
    let j = lemma_without_order_shape(levels, descending, i, id);
    let left = without_order(levels, levels[i].price, id);
    if left.len() > 0 && levels[i].ids.len() == 1 && i == 0 {
        assert(left[0] == levels[1]);
        assert(precedes(descending, levels[0].price, levels[1].price));
    }
}

/// The best price of a side after pruning is no better than the best price
/// before.
proof fn lemma_best_pruned(levels: Seq<LevelView>, descending: bool, live: Set<OrderId>)
    requires
        ordered(levels, descending),
    ensures
        pruned(levels, live).len() > 0 ==> levels.len() > 0 && !precedes(
            descending,
            pruned(levels, live)[0].price,
            levels[0].price,
        ),
{
    let left = pruned(levels, live);
    lemma_pruned_shape(levels, descending, live);
    if left.len() > 0 {
        assert(kept_from_some(levels, live, left[0]));
        let m = choose|m: int| kept_from(levels, live, m, left[0]);
        if m > 0 {
            assert(precedes(descending, levels[0].price, levels[m].price));
        }
    }
}

/// The incoming order comes to rest although the other side, as the pass
/// left it, still meets its price.
pub open spec fn rests_crossing(book: BookView, incoming: Order) -> bool {
    rests(book.order_after(incoming)) && book.after_pass(incoming).crosses(
        book.order_after(incoming),
    )
}

/// The request puts an order to rest although the other side still meets
/// its price.
pub open spec fn request_rests_crossing(book: BookView, request: OrderRequest) -> bool {
    match request {
        OrderRequest::Trade(trade_request) => trade_request.fault() is None
            && !book.orders.contains_key(trade_request.id) && rests_crossing(
            book,
            trade_request.order(),
        ),
        OrderRequest::Cancel(_, _) => false,
        OrderRequest::Modify(trade_request) => trade_request.fault() is None && book.modify_fault(
            trade_request.order(),
        ) is None && rests_crossing(
            book.after_cancel(trade_request.id),
            reissued(book.orders[trade_request.id], trade_request.order()),
        ),
    }
}

/// No crossing book, exactly, for a match. Matching an order on an
/// uncrossed book leaves the book crossed in one case only: the order comes
/// to rest although the other side still meets its price, as happens where
/// a minimum stood in the way of a fill.
pub proof fn law_crossed_only_by_resting(book: BookView, incoming: Order)
    requires
        book.wf(),
        !book.orders.contains_key(incoming.id),
        incoming.at_rest(),
        uncrossed(book),
    ensures
        uncrossed(book.after_match(incoming)) <==> !rests_crossing(book, incoming),
{
    let side = incoming.side;
    let across = book.side(other_side(side));
    let between = book.after_pass(incoming);
    let order = book.order_after(incoming);
    lemma_tentative_sound(book, incoming);
    lemma_best_pruned(across, other_side(side) == OrderSide::Buy, between.orders.dom());
    assert(uncrossed(between));
    if rests(order) {
        lemma_after_pass_ordered(book, incoming);
        lemma_best_with_order(between.side(side), side == OrderSide::Buy, order.price, order.id);
    }
}

/// The sides of the book after a pass are in strict price priority.
proof fn lemma_after_pass_ordered(book: BookView, incoming: Order)
    requires
        book.wf(),
    ensures
        ordered(book.after_pass(incoming).asks, false),
        ordered(book.after_pass(incoming).bids, true),
{
    let across = book.side(other_side(incoming.side));
    lemma_pruned_shape(
        across,
        other_side(incoming.side) == OrderSide::Buy,
        book.after_pass(incoming).orders.dom(),
    );
}

/// No crossing book, exactly. A request on an uncrossed book leaves the
/// book crossed in one case only: it puts an order to rest although the
/// other side still meets its price.
pub proof fn law_no_crossing_exactly(book: BookView, request: OrderRequest)
    requires
        book.wf(),
        uncrossed(book),
    ensures
        uncrossed(book.after_request(request)) <==> !request_rests_crossing(book, request),
{
    match request {
        OrderRequest::Trade(trade_request) => {
            if trade_request.fault() is None && !book.orders.contains_key(trade_request.id) {
                law_crossed_only_by_resting(book, trade_request.order());
            }
        },
        OrderRequest::Cancel(_, id) => {
            if book.orders.contains_key(id) {
                lemma_cancel_keeps_uncrossed(book, id);
            }
        },
        OrderRequest::Modify(trade_request) => {
            let new = trade_request.order();
            if trade_request.fault() is None && book.modify_fault(new) is None {
                lemma_cancel_keeps_uncrossed(book, new.id);
                lemma_after_cancel_wf(book, new.id, Set::empty());
                law_crossed_only_by_resting(
                    book.after_cancel(new.id),
                    reissued(book.orders[new.id], new),
                );
            }
        },
    }
}

/// No crossing book, for a match. Where no minimum stands in the way of a
/// fill (no resting order and not the incoming one asks for more than one
/// unit) and the incoming order has no more left than its initial quantity,
/// matching it leaves the book uncrossed if it was, and leaves no minimum
/// in the way.
pub proof fn law_no_crossing_match(book: BookView, incoming: Order)
    requires
        book.wf(),
        !book.orders.contains_key(incoming.id),
        incoming.at_rest(),
        uncrossed(book),
        minimums_idle(book),
        incoming.minimum_quantity <= 1,
        incoming.remaining_quantity <= incoming.initial_quantity,
    ensures
        uncrossed(book.after_match(incoming)),
        minimums_idle(book.after_match(incoming)),
{
    let side = incoming.side;
    let pass = book.tentative(incoming);
    let across = book.side(other_side(side));
    let own = book.side(side);
    let between = book.after_pass(incoming);
    let order = book.order_after(incoming);
    let after = book.after_match(incoming);
    let start = opening(book, incoming);
    lemma_tentative_sound(book, incoming);
    lemma_opening_sound(book, incoming);
    assert forall|id: OrderId| #[trigger] after.orders.contains_key(id) implies after.orders[id].minimum_quantity
        <= 1 by {
        if id != incoming.id {
            assert(book.orders.contains_key(id));
            assert(pass.orders.contains_key(id));
        }
    }
    // The other side after the pass has no better a best price than before.
    lemma_best_pruned(across, other_side(side) == OrderSide::Buy, between.orders.dom());
    assert(uncrossed(between));
    if rests(order) {
        lemma_best_with_order(between.side(side), side == OrderSide::Buy, order.price, order.id);
        if book.crosses(incoming) {
            // At least one unit is taken from the first order met.
            let first = across[0];
            assert(first.ids.len() > 0);
            assert(book.orders.contains_key(first.ids[0]));
            assert(book.orders[first.ids[0]].at_rest());
            let met = visit(incoming, first.price, first.ids[0], start);
            assert(sweep_level(incoming, first, 0, start) == start);
            assert(sweep_level(incoming, first, 1, start) == met);
            assert(met.available < incoming.remaining_quantity);
            lemma_sweep_level_falls(incoming, first, 1, first.ids.len(), start);
            assert(sweep_levels(incoming, across, 0, start) == start);
            assert(sweep_levels(incoming, across, 1, start) == sweep_level(
                incoming,
                first,
                first.ids.len(),
                start,
            ));
            lemma_sweep_levels_falls(incoming, across, 1, across.len(), start);
            assert(accepts(incoming, pass));
            // The order has quantity left, so it took all there was.
            lemma_sweep_levels_drains(book, incoming, across.len(), start);
            let left = between.side(other_side(side));
            let live = between.orders.dom();
            lemma_pruned_shape(across, other_side(side) == OrderSide::Buy, live);
            if left.len() > 0 {
                assert(kept_from_some(across, live, left[0]));
                let m = choose|m: int| kept_from(across, live, m, left[0]);
                let id = left[0].ids[0];
                assert(left[0].ids.contains(id));
                lemma_retained_contains(across[m].ids, live, id);
                let source = across[m].ids;
                let c = choose|c: int| 0 <= c < source.len() && source[c] == id;
                assert(pass.orders[across[m].ids[c]].virtual_remaining_quantity == 0);
            }
            assert(left.len() == 0);
        }
    }
}

/// No crossing book. Where no minimum stands in the way of a fill (no
/// resting order asks for more than one unit, nor does a new order, and a
/// modification asks for no less than the order has left), a request leaves
/// the book uncrossed if it was, and leaves no minimum in the way.
pub proof fn law_no_crossing(book: BookView, request: OrderRequest)
    requires
        book.wf(),
        uncrossed(book),
        minimums_idle(book),
        request matches OrderRequest::Trade(trade_request) ==> trade_request.minimum_quantity <= 1,
        request matches OrderRequest::Modify(trade_request) ==> book.orders.contains_key(
            trade_request.id,
        ) && book.orders[trade_request.id].remaining_quantity <= trade_request.quantity,
    ensures
        uncrossed(book.after_request(request)),
        minimums_idle(book.after_request(request)),
{
    match request {
        OrderRequest::Trade(trade_request) => {
            if trade_request.fault() is None && !book.orders.contains_key(trade_request.id) {
                law_no_crossing_match(book, trade_request.order());
            }
        },
        OrderRequest::Cancel(_, id) => {
            if book.orders.contains_key(id) {
                lemma_cancel_keeps_uncrossed(book, id);
            }
        },
        OrderRequest::Modify(trade_request) => {
            let new = trade_request.order();
            if trade_request.fault() is None && book.modify_fault(new) is None {
                lemma_cancel_keeps_uncrossed(book, new.id);
                lemma_after_cancel_wf(book, new.id, Set::empty());
                law_no_crossing_match(book.after_cancel(new.id), reissued(book.orders[new.id], new));
            }
        },
    }
}

/// A cancellation leaves the book uncrossed if it was, and leaves no
/// minimum in the way if there was none.
proof fn lemma_cancel_keeps_uncrossed(book: BookView, id: OrderId)
    requires
        book.wf(),
        book.orders.contains_key(id),
        uncrossed(book),
    ensures
        uncrossed(book.after_cancel(id)),
        minimums_idle(book) ==> minimums_idle(book.after_cancel(id)),
{
    let order = book.orders[id];
    let levels = book.side(order.side);
    let i = choose|i: int|
        0 <= i < levels.len() && (#[trigger] levels[i]).price == order.price
            && levels[i].ids.contains(id);
    lemma_best_without_order(levels, order.side == OrderSide::Buy, i, id);
    if minimums_idle(book) {
        assert forall|other: OrderId| #[trigger]
            book.after_cancel(id).orders.contains_key(other) implies book.after_cancel(
            id,
        ).orders[other].minimum_quantity <= 1 by {
            assert(book.orders.contains_key(other));
        }
    }
}

/// The pass of `incoming` over `book` when it comes to the order at place
/// `n` of the level `l` of the other side.
pub open spec fn pass_before(book: BookView, incoming: Order, l: int, n: int) -> Pass {
    let levels = book.side(other_side(incoming.side));
    sweep_level(
        incoming,
        levels[l],
        n as nat,
        sweep_levels(incoming, levels, l as nat, opening(book, incoming)),
    )
}

/// A pass only runs on: from one place in the priority order to a later
/// one it keeps the candidate trades that it has and gives no quantity back
/// to the incoming order.
proof fn lemma_pass_runs_on(
    book: BookView,
    incoming: Order,
    l1: int,
    n1: int,
    l2: int,
    n2: int,
)
    requires
        0 <= l1 <= l2 < book.side(other_side(incoming.side)).len(),
        0 <= n1 <= book.side(other_side(incoming.side))[l1].ids.len(),
        0 <= n2 <= book.side(other_side(incoming.side))[l2].ids.len(),
        l1 < l2 || n1 <= n2,
    ensures
        begins_with(
            pass_before(book, incoming, l2, n2).trades,
            pass_before(book, incoming, l1, n1).trades,
        ),
        pass_before(book, incoming, l2, n2).available <= pass_before(
            book,
            incoming,
            l1,
            n1,
        ).available,
{
    let levels = book.side(other_side(incoming.side));
    let start = opening(book, incoming);
    let entering = sweep_levels(incoming, levels, l1 as nat, start);
    if l1 == l2 {
        lemma_sweep_level_grows(incoming, levels[l1], n1 as nat, n2 as nat, entering);
        lemma_sweep_level_falls(incoming, levels[l1], n1 as nat, n2 as nat, entering);
    } else {
        let mine = pass_before(book, incoming, l1, n1);
        let done = sweep_levels(incoming, levels, (l1 + 1) as nat, start);
        let next = sweep_levels(incoming, levels, l2 as nat, start);
        let theirs = pass_before(book, incoming, l2, n2);
        lemma_sweep_level_grows(incoming, levels[l1], n1 as nat, levels[l1].ids.len(), entering);
        lemma_sweep_level_falls(incoming, levels[l1], n1 as nat, levels[l1].ids.len(), entering);
        lemma_sweep_levels_grows(incoming, levels, (l1 + 1) as nat, l2 as nat, start);
        lemma_sweep_levels_falls(incoming, levels, (l1 + 1) as nat, l2 as nat, start);
        lemma_sweep_level_grows(incoming, levels[l2], 0, n2 as nat, next);
        lemma_sweep_level_falls(incoming, levels[l2], 0, n2 as nat, next);
        assert(begins_with(done.trades, mine.trades));
        assert(begins_with(next.trades, done.trades));
        assert(begins_with(theirs.trades, next.trades));
    }
}

/// The candidate trades that a pass has at any place are the first of the
/// candidate trades of the whole pass.
proof fn lemma_pass_ends(book: BookView, incoming: Order, l: int, n: int)
    requires
        0 <= l < book.side(other_side(incoming.side)).len(),
        0 <= n <= book.side(other_side(incoming.side))[l].ids.len(),
    ensures
        begins_with(book.tentative(incoming).trades, pass_before(book, incoming, l, n).trades),
{
    let levels = book.side(other_side(incoming.side));
    let start = opening(book, incoming);
    let entering = sweep_levels(incoming, levels, l as nat, start);
    let here = pass_before(book, incoming, l, n);
    let done = sweep_levels(incoming, levels, (l + 1) as nat, start);
    lemma_sweep_level_grows(incoming, levels[l], n as nat, levels[l].ids.len(), entering);
    lemma_sweep_levels_grows(incoming, levels, (l + 1) as nat, levels.len(), start);
    assert(begins_with(done.trades, here.trades));
}

/// An order is as on the book when the pass comes to it: nothing that
/// stands before it in the priority order is that order.
proof fn lemma_untouched_when_met(book: BookView, incoming: Order, l: int, n: int)
    requires
        book.wf(),
        0 <= l < book.side(other_side(incoming.side)).len(),
        0 <= n < book.side(other_side(incoming.side))[l].ids.len(),
    ensures
        book.orders.contains_key(book.side(other_side(incoming.side))[l].ids[n]),
        pass_before(book, incoming, l, n).orders.contains_key(
            book.side(other_side(incoming.side))[l].ids[n],
        ),
        pass_before(book, incoming, l, n).orders[book.side(other_side(incoming.side))[l].ids[n]]
            == book.orders[book.side(other_side(incoming.side))[l].ids[n]],
{
    let levels = book.side(other_side(incoming.side));
    let descending = other_side(incoming.side) == OrderSide::Buy;
    let start = opening(book, incoming);
    let entering = sweep_levels(incoming, levels, l as nat, start);
    let id = levels[l].ids[n];
    assert(book.orders.contains_key(id));
    assert forall|i: int, j: int| 0 <= i < l && 0 <= j < levels[i].ids.len() implies #[trigger] levels[i].ids[j]
        != id by {
        if levels[i].ids[j] == id {
            lemma_level_unique(levels, descending, book.orders[id].price, i);
            lemma_level_unique(levels, descending, book.orders[id].price, l);
        }
    }
    lemma_sweep_levels_elsewhere(incoming, levels, l as nat, start, id);
    assert forall|j: int| 0 <= j < n implies levels[l].ids[j] != id by {}
    lemma_sweep_level_elsewhere(incoming, levels[l], n as nat, entering, id);
}

/// Every candidate trade that a pass has made when it comes to a place is
/// of one unit at least.
proof fn lemma_pass_positive(book: BookView, incoming: Order, l: int, n: int)
    requires
        book.wf(),
        0 <= l < book.side(other_side(incoming.side)).len(),
        0 <= n <= book.side(other_side(incoming.side))[l].ids.len(),
    ensures
        forall|k: int|
            0 <= k < pass_before(book, incoming, l, n).trades.len() ==> (#[trigger] pass_before(
                book,
                incoming,
                l,
                n,
            ).trades[k]).bid.quantity >= 1,
    decreases l, n,
{
    let levels = book.side(other_side(incoming.side));
    let start = opening(book, incoming);
    let here = pass_before(book, incoming, l, n);
    if n == 0 {
        if l > 0 {
            lemma_pass_positive(book, incoming, l - 1, levels[l - 1].ids.len() as int);
            assert(here == pass_before(book, incoming, l - 1, levels[l - 1].ids.len() as int));
        } else {
            assert(here == start);
        }
    } else {
        let before = pass_before(book, incoming, l, n - 1);
        lemma_pass_positive(book, incoming, l, n - 1);
        lemma_untouched_when_met(book, incoming, l, n - 1);
        assert(here == visit(incoming, levels[l].price, levels[l].ids[n - 1], before));
        assert(book.orders[levels[l].ids[n - 1]].at_rest());
        assert forall|k: int| 0 <= k < here.trades.len() implies (#[trigger] here.trades[k]).bid.quantity
            >= 1 by {
            if k < before.trades.len() {
                assert(here.trades[k] == before.trades[k]);
            }
        }
    }
}

/// Every candidate trade of a whole pass is of one unit at least.
pub proof fn lemma_tentative_positive(book: BookView, incoming: Order)
    requires
        book.wf(),
    ensures
        forall|k: int|
            0 <= k < book.tentative(incoming).trades.len() ==> (#[trigger] book.tentative(
                incoming,
            ).trades[k]).bid.quantity >= 1,
{
    let levels = book.side(other_side(incoming.side));
    if levels.len() > 0 {
        let last = levels.len() - 1;
        lemma_pass_positive(book, incoming, last, levels[last].ids.len() as int);
        assert(book.tentative(incoming) == pass_before(
            book,
            incoming,
            last,
            levels[last].ids.len() as int,
        ));
    } else {
        assert(book.tentative(incoming) == opening(book, incoming));
    }
}

/// No empty trade. Every trade that a match produces is of one unit at
/// least.
pub proof fn law_no_empty_trade(book: BookView, incoming: Order, k: int)
    requires
        book.wf(),
        !book.orders.contains_key(incoming.id),
        incoming.at_rest(),
        0 <= k < book.trades_of(incoming).len(),
    ensures
        book.trades_of(incoming)[k].bid.quantity >= 1,
        book.trades_of(incoming)[k].ask.quantity >= 1,
{
    lemma_tentative_sound(book, incoming);
    lemma_tentative_positive(book, incoming);
    assert(trade_sound(book, incoming, book.tentative(incoming).trades[k]));
}

/// Price-time priority. Let A stand before B in the priority order of a
/// side, at a better price or at the same price and earlier, and let the
/// pass of an incoming order make a candidate trade with B. Then the pass
/// either passed A over because what it could give A was below A's minimum,
/// or it made a candidate trade with A that stands before the one with B in
/// the list of trades and takes all that A had.
pub proof fn law_price_time_priority(
    book: BookView,
    incoming: Order,
    la: int,
    a: int,
    lb: int,
    b: int,
)
    requires
        book.wf(),
        !book.orders.contains_key(incoming.id),
        incoming.at_rest(),
        0 <= la <= lb < book.side(other_side(incoming.side)).len(),
        0 <= a < book.side(other_side(incoming.side))[la].ids.len(),
        0 <= b < book.side(other_side(incoming.side))[lb].ids.len(),
        la < lb || a < b,
        pass_before(book, incoming, lb, b + 1).trades.len() > pass_before(
            book,
            incoming,
            lb,
            b,
        ).trades.len(),
    ensures
        ({
            let levels = book.side(other_side(incoming.side));
            let trades = book.tentative(incoming).trades;
            let at_a = pass_before(book, incoming, la, a).trades.len() as int;
            let at_b = pass_before(book, incoming, lb, b).trades.len() as int;
            let first = book.orders[levels[la].ids[a]];
            &&& at_b < trades.len()
            &&& resting_half(trades[at_b], incoming.side).order_id == levels[lb].ids[b]
            &&& {
                ||| least(pass_before(book, incoming, la, a).available, first.remaining_quantity)
                    < first.minimum_quantity
                ||| at_a < at_b && trades[at_a] == trade_between(
                    incoming,
                    levels[la].ids[a],
                    levels[la].price,
                    first.remaining_quantity,
                )
            }
        }),
{
    let levels = book.side(other_side(incoming.side));
    let before_a = pass_before(book, incoming, la, a);
    let after_a = pass_before(book, incoming, la, a + 1);
    let before_b = pass_before(book, incoming, lb, b);
    let after_b = pass_before(book, incoming, lb, b + 1);
    let trades = book.tentative(incoming).trades;
    let id_a = levels[la].ids[a];
    let id_b = levels[lb].ids[b];
    let at_a = before_a.trades.len() as int;
    let at_b = before_b.trades.len() as int;
    let first = book.orders[id_a];
    assert(after_b == visit(incoming, levels[lb].price, id_b, before_b));
    assert(after_a == visit(incoming, levels[la].price, id_a, before_a));
    // The pass runs on from A to B to its end.
    lemma_pass_runs_on(book, incoming, la, a + 1, lb, b);
    lemma_pass_ends(book, incoming, lb, b + 1);
    let with_b = after_b.trades[at_b];
    assert(trades[at_b] == with_b);
    assert(resting_half(with_b, incoming.side).order_id == id_b);
    // The incoming order still had quantity when it came to B, so it had
    // after A.
    assert(before_b.available > 0);
    assert(after_a.available > 0);
    // A was as on the book when the pass came to it.
    lemma_untouched_when_met(book, incoming, la, a);
    assert(before_a.orders.contains_key(id_a));
    assert(before_a.orders[id_a] == first);
    assert(first.at_rest());
    if after_a != before_a {
        let quantity = least(before_a.available, first.remaining_quantity);
        assert(after_a.trades == before_a.trades.push(
            trade_between(incoming, id_a, levels[la].price, quantity),
        ));
        assert(after_a.available == before_a.available - quantity);
        assert(quantity == first.remaining_quantity);
        assert(before_b.trades[at_a] == after_a.trades[at_a]);
        assert(after_b.trades[at_a] == before_b.trades[at_a]);
        assert(trades[at_a] == after_b.trades[at_a]);
    }
}

} // verus!
