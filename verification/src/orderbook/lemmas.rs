//! Facts about the book's model on which the engine's proofs rest.

use super::model::{
    least, listed, minimums_idle, other_side, pass_sound, pruned, resting_half, resting_ids,
    restored, retained, share, side_registered, sweep_level, sweep_levels, trade_between,
    trade_sound, traded, visit, BookView, Pass,
};
use super::orderlevels::{
    all_occupied, has_level, holds, is_first_index, is_slot, lemma_first_index_unique,
    lemma_level_unique, lemma_ordered_drop_last, lemma_ordered_insert, lemma_ordered_remove,
    lemma_ordered_update, level_at, ordered, precedes, slot, with_order, without_order, LevelView,
};
use super::{Order, OrderId, OrderSide, OrderType, Price, Trade};
use vstd::prelude::*;

verus! {

/// Keeping the live identifiers of two runs, one after the other, keeps
/// those of the whole.
pub proof fn lemma_retained_concat(a: Seq<OrderId>, b: Seq<OrderId>, live: Set<OrderId>)
    ensures
        retained(a + b, live) == retained(a, live) + retained(b, live),
    decreases b.len(),
{
    if b.len() == 0 {
        assert(a + b =~= a);
        assert(retained(a, live) + retained(b, live) =~= retained(a, live));
    } else {
        lemma_retained_concat(a, b.drop_last(), live);
        assert((a + b).drop_last() =~= a + b.drop_last());
        assert((a + b).last() == b.last());
        if live.contains(b.last()) {
            assert(retained(a, live) + retained(b.drop_last(), live).push(b.last()) =~= (retained(
                a,
                live,
            ) + retained(b.drop_last(), live)).push(b.last()));
        }
    }
}

/// Where every identifier is live, all are kept.
pub proof fn lemma_retained_all(ids: Seq<OrderId>, live: Set<OrderId>)
    requires
        forall|k: int| 0 <= k < ids.len() ==> live.contains(ids[k]),
    ensures
        retained(ids, live) == ids,
    decreases ids.len(),
{
    if ids.len() > 0 {
        assert forall|k: int| 0 <= k < ids.drop_last().len() implies live.contains(
            ids.drop_last()[k],
        ) by {
            assert(ids.drop_last()[k] == ids[k]);
        }
        lemma_retained_all(ids.drop_last(), live);
        assert(ids.drop_last().push(ids.last()) =~= ids);
    }
}

/// An identifier is kept exactly if it was there and is live.
pub proof fn lemma_retained_contains(ids: Seq<OrderId>, live: Set<OrderId>, id: OrderId)
    ensures
        retained(ids, live).contains(id) <==> ids.contains(id) && live.contains(id),
    decreases ids.len(),
{
    let kept = retained(ids, live);
    if ids.len() > 0 {
        let init = ids.drop_last();
        let rest = retained(init, live);
        lemma_retained_contains(init, live, id);
        if ids.contains(id) && live.contains(id) {
            let k = choose|k: int| 0 <= k < ids.len() && ids[k] == id;
            if k == ids.len() - 1 {
                assert(kept[kept.len() - 1] == id);
            } else {
                assert(init[k] == id);
                let w = choose|w: int| 0 <= w < rest.len() && rest[w] == id;
                assert(kept[w] == id);
            }
        }
        if kept.contains(id) {
            let k = choose|k: int| 0 <= k < kept.len() && kept[k] == id;
            if live.contains(ids.last()) && k == rest.len() {
                assert(ids[ids.len() - 1] == id);
            } else {
                assert(rest[k] == id);
                let w = choose|w: int| 0 <= w < init.len() && init[w] == id;
                assert(ids[w] == id);
            }
        }
    }
}

/// Keeping the live identifiers brings in no duplicates.
pub proof fn lemma_retained_no_duplicates(ids: Seq<OrderId>, live: Set<OrderId>)
    requires
        ids.no_duplicates(),
    ensures
        retained(ids, live).no_duplicates(),
    decreases ids.len(),
{
    if ids.len() > 0 {
        let init = ids.drop_last();
        let rest = retained(init, live);
        assert(init.no_duplicates());
        lemma_retained_no_duplicates(init, live);
        lemma_retained_contains(init, live, ids.last());
        if init.contains(ids.last()) {
            let k = choose|k: int| 0 <= k < init.len() && init[k] == ids.last();
            assert(ids[k] == ids[ids.len() - 1]);
        }
        if live.contains(ids.last()) {
            let kept = rest.push(ids.last());
            assert forall|i: int, j: int| 0 <= i < kept.len() && 0 <= j < kept.len() && i != j implies kept[i]
                != kept[j] by {
                if i == rest.len() {
                    assert(rest[j] == kept[j]);
                } else if j == rest.len() {
                    assert(rest[i] == kept[i]);
                }
            }
        }
    }
}

/// Keeping the live identifiers twice keeps those that are live both times.
pub proof fn lemma_retained_twice(ids: Seq<OrderId>, first: Set<OrderId>, second: Set<OrderId>)
    ensures
        retained(retained(ids, first), second) == retained(ids, first.intersect(second)),
    decreases ids.len(),
{
    if ids.len() > 0 {
        let init = ids.drop_last();
        lemma_retained_twice(init, first, second);
        if first.contains(ids.last()) {
            let rest = retained(init, first);
            assert(rest.push(ids.last()).drop_last() =~= rest);
        }
    }
}

/// Keeping all but one identifier of a run without duplicates removes it
/// where it stands.
pub proof fn lemma_retained_without(ids: Seq<OrderId>, id: OrderId, j: int)
    requires
        ids.no_duplicates(),
        0 <= j < ids.len(),
        ids[j] == id,
    ensures
        retained(ids, Set::full().remove(id)) == ids.remove(j),
{
    let live = Set::<OrderId>::full().remove(id);
    let head = ids.take(j);
    let one = seq![id];
    let tail = ids.skip(j + 1);
    assert(ids =~= head + one + tail);
    lemma_retained_concat(head + one, tail, live);
    lemma_retained_concat(head, one, live);
    assert forall|k: int| 0 <= k < head.len() implies live.contains(head[k]) by {
        assert(head[k] == ids[k]);
    }
    lemma_retained_all(head, live);
    assert forall|k: int| 0 <= k < tail.len() implies live.contains(tail[k]) by {
        assert(tail[k] == ids[k + j + 1]);
    }
    lemma_retained_all(tail, live);
    assert(one.drop_last() =~= Seq::<OrderId>::empty());
    assert(one.last() == id);
    assert(retained(one.drop_last(), live) =~= Seq::<OrderId>::empty());
    assert(retained(one, live) =~= Seq::<OrderId>::empty());
    assert(head + Seq::<OrderId>::empty() + tail =~= ids.remove(j));
}

/// One more trade adds its share to what the trades take from an order.
pub proof fn lemma_traded_push(trades: Seq<Trade>, trade: Trade, id: OrderId)
    ensures
        traded(trades.push(trade), id) == traded(trades, id) + share(trade, id),
{
    assert(trades.push(trade).drop_last() =~= trades);
}

/// No trades take nothing.
pub proof fn lemma_traded_none(id: OrderId)
    ensures
        traded(Seq::<Trade>::empty(), id) == 0,
{
}

/// Meeting one resting order of the other side keeps a pass sound.
pub proof fn lemma_visit_sound(book: BookView, incoming: Order, i: int, j: int, pass: Pass)
    requires
        book.wf(),
        !book.orders.contains_key(incoming.id),
        pass_sound(book, incoming, pass),
        0 <= i < book.side(other_side(incoming.side)).len(),
        0 <= j < book.side(other_side(incoming.side))[i].ids.len(),
    ensures
        pass_sound(
            book,
            incoming,
            visit(
                incoming,
                book.side(other_side(incoming.side))[i].price,
                book.side(other_side(incoming.side))[i].ids[j],
                pass,
            ),
        ),
{
    let levels = book.side(other_side(incoming.side));
    let id = levels[i].ids[j];
    let price = levels[i].price;
    let next = visit(incoming, price, id, pass);
    assert(book.orders.contains_key(id) && book.orders[id].side == other_side(incoming.side)
        && book.orders[id].price == price);
    if next != pass {
        let resting = pass.orders[id];
        let quantity = least(pass.available, resting.virtual_remaining_quantity);
        let trade = trade_between(incoming, id, price, quantity);
        assert(next.trades == pass.trades.push(trade));
        assert(next.orders.dom() =~= book.orders.dom());
        lemma_traded_push(pass.trades, trade, incoming.id);
        assert(share(trade, incoming.id) == quantity);
        assert forall|other: OrderId| #[trigger] book.orders.contains_key(other) implies {
            let before = book.orders[other];
            let now = next.orders[other];
            &&& now == Order {
                virtual_remaining_quantity: now.virtual_remaining_quantity,
                ..before
            }
            &&& now.virtual_remaining_quantity + traded(next.trades, other)
                == before.virtual_remaining_quantity
            &&& now == before || resting_ids(next.trades, incoming.side).contains(other)
        } by {
            lemma_traded_push(pass.trades, trade, other);
            if other == id {
                assert(share(trade, other) == quantity);
                assert(resting_half(next.trades[pass.trades.len() as int], incoming.side).order_id
                    == other);
            } else {
                assert(share(trade, other) == 0);
                if pass.orders[other] != book.orders[other] {
                    let k = choose|k: int|
                        0 <= k < pass.trades.len() && resting_half(
                            #[trigger] pass.trades[k],
                            incoming.side,
                        ).order_id == other;
                    assert(resting_half(next.trades[k], incoming.side).order_id == other);
                }
            }
        }
        assert forall|k: int| 0 <= k < next.trades.len() implies trade_sound(
            book,
            incoming,
            #[trigger] next.trades[k],
        ) by {
            if k < pass.trades.len() {
                assert(next.trades[k] == pass.trades[k]);
            } else {
                assert(next.trades[k] == trade);
                assert(book.orders[id].at_rest());
            }
        }
    }
}

/// Going through the first `n` orders of a level of the other side keeps a
/// pass sound.
pub proof fn lemma_sweep_level_sound(book: BookView, incoming: Order, i: int, n: nat, pass: Pass)
    requires
        book.wf(),
        !book.orders.contains_key(incoming.id),
        pass_sound(book, incoming, pass),
        0 <= i < book.side(other_side(incoming.side)).len(),
        n <= book.side(other_side(incoming.side))[i].ids.len(),
    ensures
        pass_sound(
            book,
            incoming,
            sweep_level(incoming, book.side(other_side(incoming.side))[i], n, pass),
        ),
    decreases n,
{
    if n > 0 {
        let level = book.side(other_side(incoming.side))[i];
        lemma_sweep_level_sound(book, incoming, i, (n - 1) as nat, pass);
        lemma_visit_sound(
            book,
            incoming,
            i,
            n - 1,
            sweep_level(incoming, level, (n - 1) as nat, pass),
        );
    }
}

/// Going through the first `m` levels of the other side keeps a pass sound.
pub proof fn lemma_sweep_levels_sound(book: BookView, incoming: Order, m: nat, pass: Pass)
    requires
        book.wf(),
        !book.orders.contains_key(incoming.id),
        pass_sound(book, incoming, pass),
        m <= book.side(other_side(incoming.side)).len(),
    ensures
        pass_sound(
            book,
            incoming,
            sweep_levels(incoming, book.side(other_side(incoming.side)), m, pass),
        ),
    decreases m,
{
    if m > 0 {
        let levels = book.side(other_side(incoming.side));
        lemma_sweep_levels_sound(book, incoming, (m - 1) as nat, pass);
        lemma_sweep_level_sound(
            book,
            incoming,
            m - 1,
            levels[m - 1].ids.len(),
            sweep_levels(incoming, levels, (m - 1) as nat, pass),
        );
    }
}

/// The pass at its start: nothing taken, nothing changed.
pub open spec fn opening(book: BookView, incoming: Order) -> Pass {
    Pass {
        available: incoming.virtual_remaining_quantity,
        orders: book.orders,
        trades: Seq::empty(),
    }
}

/// A pass is sound when it starts.
pub proof fn lemma_opening_sound(book: BookView, incoming: Order)
    ensures
        pass_sound(book, incoming, opening(book, incoming)),
{
}

/// The whole pass of an order over a book between requests is sound.
pub proof fn lemma_tentative_sound(book: BookView, incoming: Order)
    requires
        book.wf(),
        !book.orders.contains_key(incoming.id),
    ensures
        pass_sound(book, incoming, book.tentative(incoming)),
{
    lemma_opening_sound(book, incoming);
    lemma_sweep_levels_sound(
        book,
        incoming,
        book.side(other_side(incoming.side)).len(),
        opening(book, incoming),
    );
}

/// Once the incoming order has nothing left, the rest of a level changes
/// nothing.
pub proof fn lemma_sweep_level_exhausted(
    incoming: Order,
    level: LevelView,
    from: nat,
    n: nat,
    pass: Pass,
)
    requires
        from <= n,
        sweep_level(incoming, level, from, pass).available == 0,
    ensures
        sweep_level(incoming, level, n, pass) == sweep_level(incoming, level, from, pass),
    decreases n,
{
    if from < n {
        lemma_sweep_level_exhausted(incoming, level, from, (n - 1) as nat, pass);
    }
}

/// Once the incoming order has nothing left, the rest of the levels change
/// nothing.
pub proof fn lemma_sweep_levels_exhausted(
    incoming: Order,
    levels: Seq<LevelView>,
    from: nat,
    m: nat,
    pass: Pass,
)
    requires
        from <= m,
        sweep_levels(incoming, levels, from, pass).available == 0,
    ensures
        sweep_levels(incoming, levels, m, pass) == sweep_levels(incoming, levels, from, pass),
    decreases m,
{
    if from < m {
        lemma_sweep_levels_exhausted(incoming, levels, from, (m - 1) as nat, pass);
        let before = sweep_levels(incoming, levels, (m - 1) as nat, pass);
        lemma_sweep_level_exhausted(incoming, levels[m - 1], 0, levels[m - 1].ids.len(), before);
    }
}

/// In levels in strict price priority, every price has its place.
pub proof fn lemma_slot_exists(levels: Seq<LevelView>, descending: bool, price: Price)
    requires
        ordered(levels, descending),
    ensures
        is_slot(levels, descending, price, slot(levels, descending, price)),
    decreases levels.len(),
{
    if levels.len() == 0 {
        assert(is_slot(levels, descending, price, 0));
    } else {
        let init = levels.drop_last();
        lemma_ordered_drop_last(levels, descending);
        lemma_slot_exists(init, descending, price);
        let k = slot(init, descending, price);
        let last = levels.len() - 1;
        if k == init.len() && precedes(descending, levels[last].price, price) {
            assert forall|i: int| 0 <= i < levels.len() implies precedes(
                descending,
                (#[trigger] levels[i]).price,
                price,
            ) by {
                if i < last {
                    assert(init[i] == levels[i]);
                }
            }
            assert(is_slot(levels, descending, price, levels.len() as int));
        } else {
            assert forall|i: int| 0 <= i < k implies precedes(
                descending,
                (#[trigger] levels[i]).price,
                price,
            ) by {
                assert(init[i] == levels[i]);
            }
            assert forall|i: int| k <= i < levels.len() implies !precedes(
                descending,
                (#[trigger] levels[i]).price,
                price,
            ) by {
                if i < last {
                    assert(init[i] == levels[i]);
                } else if k < last {
                    assert(init[k] == levels[k]);
                    assert(precedes(descending, levels[k].price, levels[last].price));
                }
            }
            assert(is_slot(levels, descending, price, k));
        }
    }
}

/// What removing an order from its level comes to: the level loses the
/// order, or leaves with it where it held no other. Returns where in the
/// level the order stood.
pub proof fn lemma_without_order_shape(
    levels: Seq<LevelView>,
    descending: bool,
    i: int,
    id: OrderId,
) -> (j: int)
    requires
        ordered(levels, descending),
        0 <= i < levels.len(),
        levels[i].ids.no_duplicates(),
        levels[i].ids.contains(id),
    ensures
        0 <= j < levels[i].ids.len(),
        levels[i].ids[j] == id,
        holds(levels, levels[i].price, id),
        without_order(levels, levels[i].price, id) == (if levels[i].ids.len() == 1 {
            levels.remove(i)
        } else {
            levels.update(i, LevelView { price: levels[i].price, ids: levels[i].ids.remove(j) })
        }),
{
    let ids = levels[i].ids;
    let j = choose|j: int| 0 <= j < ids.len() && ids[j] == id;
    lemma_level_unique(levels, descending, levels[i].price, i);
    assert(is_first_index(ids, id, j));
    lemma_first_index_unique(ids, id, j);
    j
}

/// A book stays sound when a registered order leaves it.
pub proof fn lemma_after_cancel_wf(book: BookView, id: OrderId, touched: Set<OrderId>)
    requires
        book.wf_but(touched),
        book.orders.contains_key(id),
    ensures
        book.after_cancel(id).wf_but(touched),
{
    let order = book.orders[id];
    let side = order.side;
    let descending = side == OrderSide::Buy;
    let levels = book.side(side);
    let after = book.after_cancel(id);
    let left = after.side(side);
    let i = choose|i: int|
        0 <= i < levels.len() && (#[trigger] levels[i]).price == order.price
            && levels[i].ids.contains(id);
    let j = lemma_without_order_shape(levels, descending, i, id);
    let ids = levels[i].ids;
    let gone = ids.len() == 1;
    // Where each level of the side was before.
    let from = |k: int| if gone && k >= i { k + 1 } else { k };
    assert forall|k: int| 0 <= k < left.len() implies 0 <= from(k) < levels.len() && (
    #[trigger] left[k]).price == levels[from(k)].price && (forall|b: int|
        0 <= b < left[k].ids.len() ==> left[k].ids[b] != id && levels[from(k)].ids.contains(
            #[trigger] left[k].ids[b],
        )) && left[k].ids.len() > 0 && left[k].ids.no_duplicates() by {
        if !gone && k == i {
            let rest = ids.remove(j);
            assert(left[k].ids == rest);
            assert forall|b: int| 0 <= b < rest.len() implies rest[b] != id && ids.contains(
                #[trigger] rest[b],
            ) by {
                let c = if b < j { b } else { b + 1 };
                assert(rest[b] == ids[c]);
            }
            assert forall|a: int, b: int|
                0 <= a < rest.len() && 0 <= b < rest.len() && a != b implies rest[a] != rest[b] by {
                let ca = if a < j { a } else { a + 1 };
                let cb = if b < j { b } else { b + 1 };
                assert(rest[a] == ids[ca] && rest[b] == ids[cb]);
            }
        } else {
            assert(left[k] == levels[from(k)]);
            assert forall|b: int| 0 <= b < left[k].ids.len() implies left[k].ids[b] != id
                && levels[from(k)].ids.contains(#[trigger] left[k].ids[b]) by {
                let other = levels[from(k)].ids[b];
                assert(book.orders[other].price == levels[from(k)].price);
                if other == id {
                    lemma_level_unique(levels, descending, order.price, from(k));
                    lemma_level_unique(levels, descending, order.price, i);
                }
            }
        }
    }
    if gone {
        lemma_ordered_remove(levels, descending, i);
    } else {
        lemma_ordered_update(
            levels,
            descending,
            i,
            LevelView { price: levels[i].price, ids: ids.remove(j) },
        );
    }
    assert(all_occupied(left));
    assert forall|a: int, b: int| 0 <= a < left.len() && 0 <= b < left[a].ids.len() implies {
        let other = #[trigger] left[a].ids[b];
        &&& after.orders.contains_key(other)
        &&& after.orders[other].side == side
        &&& after.orders[other].price == left[a].price
    } by {
        let other = left[a].ids[b];
        assert(levels[from(a)].ids.contains(other));
        let source = levels[from(a)].ids;
        let c = choose|c: int| 0 <= c < source.len() && source[c] == other;
        assert(levels[from(a)].ids[c] == other);
    }
    assert(side_registered(left, side, after.orders));
    let across = book.side(other_side(side));
    assert forall|a: int, b: int| 0 <= a < across.len() && 0 <= b < across[a].ids.len() implies {
        let other = #[trigger] across[a].ids[b];
        &&& after.orders.contains_key(other)
        &&& after.orders[other].side == other_side(side)
        &&& after.orders[other].price == across[a].price
    } by {
        assert(book.orders[across[a].ids[b]].side == other_side(side));
    }
    assert(side_registered(across, other_side(side), after.orders));
    assert forall|other: OrderId| #[trigger] after.orders.contains_key(other) implies listed(
        after.side(after.orders[other].side),
        after.orders[other].price,
        other,
    ) by {
        let theirs = book.orders[other];
        assert(book.orders.contains_key(other));
        if theirs.side == side {
            let m = choose|m: int|
                0 <= m < levels.len() && (#[trigger] levels[m]).price == theirs.price
                    && levels[m].ids.contains(other);
            let source = levels[m].ids;
            let c = choose|c: int| 0 <= c < source.len() && source[c] == other;
            if m == i {
                let rest = ids.remove(j);
                let b = if c < j { c } else { c - 1 };
                assert(rest[b] == other);
                assert(left[i].ids == rest);
                assert(left[i].price == theirs.price);
            } else {
                let k = if gone && m > i { m - 1 } else { m };
                assert(left[k] == levels[m]);
            }
        }
    }
}

/// A book stays sound when an order that may rest joins it.
pub proof fn lemma_with_resting_wf(book: BookView, order: Order, touched: Set<OrderId>)
    requires
        book.wf_but(touched),
        !book.orders.contains_key(order.id),
        order.type_ == OrderType::Normal,
        order.remaining_quantity > 0,
        order.at_rest(),
    ensures
        book.with_resting(order).wf_but(touched),
{
    let side = order.side;
    let id = order.id;
    let descending = side == OrderSide::Buy;
    let levels = book.side(side);
    let after = book.with_resting(order);
    let grown = after.side(side);
    assert(grown == with_order(levels, descending, order.price, id));
    let there = has_level(levels, order.price);
    let i = if there { level_at(levels, order.price) } else { slot(levels, descending, order.price) };
    lemma_slot_exists(levels, descending, order.price);
    // Where each level of the side was before; the level of the order
    // itself, where it is new, was nowhere.
    let from = |k: int| if !there && k > i { k - 1 } else { k };
    assert forall|k: int| 0 <= k < grown.len() && (there || k != i) implies 0 <= from(k)
        < levels.len() && (#[trigger] grown[k]).price == levels[from(k)].price && (k != i
        ==> grown[k] == levels[from(k)]) by {}
    if there {
        lemma_ordered_update(
            levels,
            descending,
            i,
            LevelView { price: order.price, ids: levels[i].ids.push(id) },
        );
    } else {
        lemma_ordered_insert(
            levels,
            descending,
            i,
            LevelView { price: order.price, ids: seq![id] },
        );
    }
    assert forall|k: int| 0 <= k < grown.len() implies (#[trigger] grown[k]).ids.len() > 0 by {
        if k != i {
            assert(grown[k] == levels[from(k)]);
        }
    }
    assert forall|a: int, b: int| 0 <= a < grown.len() && 0 <= b < grown[a].ids.len() implies {
        let other = #[trigger] grown[a].ids[b];
        &&& after.orders.contains_key(other)
        &&& after.orders[other].side == side
        &&& after.orders[other].price == grown[a].price
    } by {
        if a != i {
            assert(grown[a].ids[b] == levels[from(a)].ids[b]);
        } else if there && b < levels[i].ids.len() {
            assert(grown[a].ids[b] == levels[i].ids[b]);
        }
    }
    assert forall|k: int| 0 <= k < grown.len() implies (#[trigger] grown[k]).ids.no_duplicates() by {
        if k != i {
            assert(grown[k] == levels[from(k)]);
        } else if there {
            let ids = levels[i].ids;
            assert forall|a: int, b: int|
                0 <= a < grown[k].ids.len() && 0 <= b < grown[k].ids.len() && a != b implies grown[k].ids[a]
                != grown[k].ids[b] by {
                if a < ids.len() {
                    assert(book.orders.contains_key(ids[a]));
                }
                if b < ids.len() {
                    assert(book.orders.contains_key(ids[b]));
                }
            }
        }
    }
    assert(side_registered(grown, side, after.orders));
    let across = book.side(other_side(side));
    assert forall|a: int, b: int| 0 <= a < across.len() && 0 <= b < across[a].ids.len() implies {
        let other = #[trigger] across[a].ids[b];
        &&& after.orders.contains_key(other)
        &&& after.orders[other].side == other_side(side)
        &&& after.orders[other].price == across[a].price
    } by {
        assert(book.orders.contains_key(across[a].ids[b]));
    }
    assert(side_registered(across, other_side(side), after.orders));
    assert forall|other: OrderId| #[trigger] after.orders.contains_key(other) implies listed(
        after.side(after.orders[other].side),
        after.orders[other].price,
        other,
    ) by {
        if other == id {
            let last = grown[i].ids.len() - 1;
            assert(grown[i].ids[last] == id);
            assert(grown[i].price == order.price);
        } else {
            let theirs = book.orders[other];
            assert(book.orders.contains_key(other));
            if theirs.side == side {
                let m = choose|m: int|
                    0 <= m < levels.len() && (#[trigger] levels[m]).price == theirs.price
                        && levels[m].ids.contains(other);
                let source = levels[m].ids;
            let c = choose|c: int| 0 <= c < source.len() && source[c] == other;
                let k = if !there && m >= i { m + 1 } else { m };
                assert(grown[k].price == theirs.price);
                assert(grown[k].ids[c] == other);
            }
        }
    }
}

/// Pruning two runs of levels, one after the other, prunes the whole.
pub proof fn lemma_pruned_concat(a: Seq<LevelView>, b: Seq<LevelView>, live: Set<OrderId>)
    ensures
        pruned(a + b, live) == pruned(a, live) + pruned(b, live),
    decreases b.len(),
{
    if b.len() == 0 {
        assert(a + b =~= a);
        assert(pruned(a, live) + pruned(b, live) =~= pruned(a, live));
    } else {
        lemma_pruned_concat(a, b.drop_last(), live);
        assert((a + b).drop_last() =~= a + b.drop_last());
        assert((a + b).last() == b.last());
        let kept = retained(b.last().ids, live);
        if kept.len() != 0 {
            let level = LevelView { price: b.last().price, ids: kept };
            assert(pruned(a, live) + pruned(b.drop_last(), live).push(level) =~= (pruned(a, live)
                + pruned(b.drop_last(), live)).push(level));
        }
    }
}

/// Pruning a single level keeps it with its live identifiers, or drops it.
pub proof fn lemma_pruned_one(level: LevelView, live: Set<OrderId>)
    ensures
        pruned(seq![level], live) == (if retained(level.ids, live).len() == 0 {
            Seq::<LevelView>::empty()
        } else {
            seq![LevelView { price: level.price, ids: retained(level.ids, live) }]
        }),
{
    let one = seq![level];
    assert(one.drop_last() =~= Seq::<LevelView>::empty());
    assert(one.last() == level);
    assert(pruned(one.drop_last(), live) =~= Seq::<LevelView>::empty());
    if retained(level.ids, live).len() != 0 {
        assert(Seq::<LevelView>::empty().push(
            LevelView { price: level.price, ids: retained(level.ids, live) },
        ) =~= seq![LevelView { price: level.price, ids: retained(level.ids, live) }]);
    }
}

/// Where no level is empty and every identifier is live, pruning changes
/// nothing.
pub proof fn lemma_pruned_all(levels: Seq<LevelView>, live: Set<OrderId>)
    requires
        all_occupied(levels),
        forall|i: int, j: int|
            0 <= i < levels.len() && 0 <= j < levels[i].ids.len() ==> live.contains(
                #[trigger] levels[i].ids[j],
            ),
    ensures
        pruned(levels, live) == levels,
    decreases levels.len(),
{
    if levels.len() > 0 {
        let init = levels.drop_last();
        let last = levels.last();
        assert forall|i: int| 0 <= i < init.len() implies (#[trigger] init[i]).ids.len() > 0 by {
            assert(init[i] == levels[i]);
        }
        assert forall|i: int, j: int|
            0 <= i < init.len() && 0 <= j < init[i].ids.len() implies live.contains(
            #[trigger] init[i].ids[j],
        ) by {
            assert(init[i].ids[j] == levels[i].ids[j]);
        }
        lemma_pruned_all(init, live);
        assert forall|k: int| 0 <= k < last.ids.len() implies live.contains(last.ids[k]) by {
            assert(last.ids[k] == levels[levels.len() - 1].ids[k]);
        }
        lemma_retained_all(last.ids, live);
        assert(levels[levels.len() - 1].ids.len() > 0);
        assert(init.push(last) =~= levels);
    }
}

/// Pruning twice keeps what is live both times.
pub proof fn lemma_pruned_twice(levels: Seq<LevelView>, first: Set<OrderId>, second: Set<OrderId>)
    ensures
        pruned(pruned(levels, first), second) == pruned(levels, first.intersect(second)),
    decreases levels.len(),
{
    if levels.len() > 0 {
        let init = levels.drop_last();
        let last = levels.last();
        lemma_pruned_twice(init, first, second);
        lemma_retained_twice(last.ids, first, second);
        let kept = retained(last.ids, first);
        if kept.len() != 0 {
            let level = LevelView { price: last.price, ids: kept };
            assert(pruned(init, first).push(level) =~= pruned(init, first) + seq![level]);
            lemma_pruned_concat(pruned(init, first), seq![level], second);
            lemma_pruned_one(level, second);
            if retained(kept, second).len() == 0 {
                assert(pruned(pruned(init, first), second) + Seq::<LevelView>::empty() =~= pruned(
                    pruned(init, first),
                    second,
                ));
            } else {
                let again = LevelView { price: last.price, ids: retained(kept, second) };
                assert(pruned(pruned(init, first), second) + seq![again] =~= pruned(
                    pruned(init, first),
                    second,
                ).push(again));
            }
        } else {
            assert(retained(kept, second) =~= Seq::<OrderId>::empty());
        }
    }
}

/// Removing an order from the one level that holds it, once, is pruning the
/// levels of that order.
pub proof fn lemma_without_order_pruned(
    levels: Seq<LevelView>,
    descending: bool,
    i: int,
    id: OrderId,
)
    requires
        ordered(levels, descending),
        all_occupied(levels),
        0 <= i < levels.len(),
        levels[i].ids.no_duplicates(),
        levels[i].ids.contains(id),
        forall|k: int| 0 <= k < levels.len() && k != i ==> !(#[trigger] levels[k]).ids.contains(id),
    ensures
        without_order(levels, levels[i].price, id) == pruned(levels, Set::full().remove(id)),
{
    let live = Set::<OrderId>::full().remove(id);
    let j = lemma_without_order_shape(levels, descending, i, id);
    let head = levels.take(i);
    let one = seq![levels[i]];
    let tail = levels.skip(i + 1);
    assert(levels =~= head + one + tail);
    lemma_pruned_concat(head + one, tail, live);
    lemma_pruned_concat(head, one, live);
    lemma_pruned_one(levels[i], live);
    lemma_retained_without(levels[i].ids, id, j);
    assert forall|a: int, b: int| 0 <= a < head.len() && 0 <= b < head[a].ids.len() implies live.contains(
        #[trigger] head[a].ids[b],
    ) by {
        assert(head[a] == levels[a]);
        assert(levels[a].ids.contains(levels[a].ids[b]));
    }
    assert forall|a: int| 0 <= a < head.len() implies (#[trigger] head[a]).ids.len() > 0 by {
        assert(head[a] == levels[a]);
    }
    lemma_pruned_all(head, live);
    assert forall|a: int, b: int| 0 <= a < tail.len() && 0 <= b < tail[a].ids.len() implies live.contains(
        #[trigger] tail[a].ids[b],
    ) by {
        assert(tail[a] == levels[a + i + 1]);
        assert(levels[a + i + 1].ids.contains(levels[a + i + 1].ids[b]));
    }
    assert forall|a: int| 0 <= a < tail.len() implies (#[trigger] tail[a]).ids.len() > 0 by {
        assert(tail[a] == levels[a + i + 1]);
    }
    lemma_pruned_all(tail, live);
    let rest = levels[i].ids.remove(j);
    if levels[i].ids.len() == 1 {
        assert(rest.len() == 0);
        assert(head + Seq::<LevelView>::empty() + tail =~= levels.remove(i));
    } else {
        let level = LevelView { price: levels[i].price, ids: rest };
        assert(head + seq![level] + tail =~= levels.update(i, level));
    }
}

/// The resting half of a trade names a registered order of the other side
/// at its price.
pub open spec fn resting_known(book: BookView, incoming_side: OrderSide, trade: Trade) -> bool {
    let theirs = resting_half(trade, incoming_side);
    &&& book.orders.contains_key(theirs.order_id)
    &&& book.orders[theirs.order_id].side == other_side(incoming_side)
    &&& book.orders[theirs.order_id].price == theirs.price
}

/// The registry with the tentative quantities of the orders in `done` made
/// final, and the others as they are.
pub open spec fn settled_among(orders: Map<OrderId, Order>, done: Set<OrderId>) -> Map<
    OrderId,
    Order,
> {
    Map::new(
        |id: OrderId|
            orders.contains_key(id) && (done.contains(id)
                ==> orders[id].virtual_remaining_quantity > 0),
        |id: OrderId|
            if done.contains(id) {
                Order { remaining_quantity: orders[id].virtual_remaining_quantity, ..orders[id] }
            } else {
                orders[id]
            },
    )
}

/// The registry with the tentative quantities of the orders in `done` put
/// back, and the others as they are.
pub open spec fn restored_among(orders: Map<OrderId, Order>, done: Set<OrderId>) -> Map<
    OrderId,
    Order,
> {
    Map::new(
        |id: OrderId| orders.contains_key(id),
        |id: OrderId|
            if done.contains(id) {
                Order { virtual_remaining_quantity: orders[id].remaining_quantity, ..orders[id] }
            } else {
                orders[id]
            },
    )
}

/// The resting orders of one more trade are those of the trades before and
/// its own.
pub proof fn lemma_resting_ids_next(trades: Seq<Trade>, side: OrderSide, k: int)
    requires
        0 <= k < trades.len(),
    ensures
        resting_ids(trades.take(k + 1), side) == resting_ids(trades.take(k), side).insert(
            resting_half(trades[k], side).order_id,
        ),
        resting_ids(trades.take(k), side).subset_of(resting_ids(trades, side)),
        resting_ids(trades, side).contains(resting_half(trades[k], side).order_id),
{
    let more = trades.take(k + 1);
    let fewer = trades.take(k);
    let id = resting_half(trades[k], side).order_id;
    assert forall|other: OrderId| resting_ids(more, side).contains(other) implies resting_ids(
        fewer,
        side,
    ).insert(id).contains(other) by {
        let w = choose|w: int|
            0 <= w < more.len() && resting_half(#[trigger] more[w], side).order_id == other;
        if w < k {
            assert(resting_half(fewer[w], side).order_id == other);
        }
    }
    assert forall|other: OrderId| resting_ids(fewer, side).insert(id).contains(
        other,
    ) implies resting_ids(more, side).contains(other) by {
        if resting_ids(fewer, side).contains(other) {
            let w = choose|w: int|
                0 <= w < fewer.len() && resting_half(#[trigger] fewer[w], side).order_id == other;
            assert(resting_half(more[w], side).order_id == other);
        } else {
            assert(resting_half(more[k], side).order_id == other);
        }
    }
    assert(resting_ids(more, side) =~= resting_ids(fewer, side).insert(id));
    assert forall|other: OrderId| resting_ids(fewer, side).contains(other) implies resting_ids(
        trades,
        side,
    ).contains(other) by {
        let w = choose|w: int|
            0 <= w < fewer.len() && resting_half(#[trigger] fewer[w], side).order_id == other;
        assert(resting_half(trades[w], side).order_id == other);
    }
    assert(resting_half(trades[k], side).order_id == id);
}

/// In the middle of a sound pass the book is sound but for the tentative
/// quantities of the orders that the candidate trades name, and every
/// candidate trade names a registered order of the other side at its price.
pub proof fn lemma_amid_wf(book: BookView, incoming: Order, pass: Pass)
    requires
        book.wf(),
        pass_sound(book, incoming, pass),
    ensures
        book.amid(pass).wf_but(resting_ids(pass.trades, incoming.side)),
        forall|k: int|
            0 <= k < pass.trades.len() ==> resting_known(
                book.amid(pass),
                incoming.side,
                #[trigger] pass.trades[k],
            ),
        book.amid(pass).rolled_back() == book,
{
    let amid = book.amid(pass);
    assert forall|id: OrderId| #[trigger] amid.orders.contains_key(id) implies {
        let order = amid.orders[id];
        &&& order.id == id
        &&& order.type_ == OrderType::Normal
        &&& order.remaining_quantity > 0
        &&& order.virtual_remaining_quantity <= order.remaining_quantity
        &&& resting_ids(pass.trades, incoming.side).contains(id) || order.at_rest()
        &&& listed(amid.side(order.side), order.price, id)
    } by {
        assert(book.orders.contains_key(id));
    }
    assert forall|i: int, j: int| 0 <= i < amid.asks.len() && 0 <= j < amid.asks[i].ids.len() implies {
        let id = #[trigger] amid.asks[i].ids[j];
        &&& amid.orders.contains_key(id)
        &&& amid.orders[id].side == OrderSide::Sell
        &&& amid.orders[id].price == amid.asks[i].price
    } by {
        assert(book.orders.contains_key(book.asks[i].ids[j]));
    }
    assert forall|i: int, j: int| 0 <= i < amid.bids.len() && 0 <= j < amid.bids[i].ids.len() implies {
        let id = #[trigger] amid.bids[i].ids[j];
        &&& amid.orders.contains_key(id)
        &&& amid.orders[id].side == OrderSide::Buy
        &&& amid.orders[id].price == amid.bids[i].price
    } by {
        assert(book.orders.contains_key(book.bids[i].ids[j]));
    }
    assert forall|k: int| 0 <= k < pass.trades.len() implies resting_known(
        amid,
        incoming.side,
        #[trigger] pass.trades[k],
    ) by {
        assert(trade_sound(book, incoming, pass.trades[k]));
        assert(book.orders.contains_key(resting_half(pass.trades[k], incoming.side).order_id));
    }
    assert forall|id: OrderId| book.orders.contains_key(id) implies #[trigger] restored(
        amid.orders,
    )[id] == book.orders[id] by {
        assert(book.orders.contains_key(id));
    }
    assert(restored(amid.orders) =~= book.orders);
}

/// Giving up the tentative quantities of a book in the middle of a pass
/// leaves a sound book.
pub proof fn lemma_rolled_back_wf(book: BookView, touched: Set<OrderId>)
    requires
        book.wf_but(touched),
    ensures
        book.rolled_back().wf(),
{
    let after = book.rolled_back();
    assert forall|id: OrderId| #[trigger] after.orders.contains_key(id) implies {
        let order = after.orders[id];
        &&& order.id == id
        &&& order.type_ == OrderType::Normal
        &&& order.remaining_quantity > 0
        &&& order.at_rest()
        &&& listed(after.side(order.side), order.price, id)
    } by {
        assert(book.orders.contains_key(id));
    }
    assert forall|i: int, j: int| 0 <= i < after.asks.len() && 0 <= j < after.asks[i].ids.len() implies {
        let id = #[trigger] after.asks[i].ids[j];
        &&& after.orders.contains_key(id)
        &&& after.orders[id].side == OrderSide::Sell
        &&& after.orders[id].price == after.asks[i].price
    } by {
        assert(book.orders.contains_key(book.asks[i].ids[j]));
    }
    assert forall|i: int, j: int| 0 <= i < after.bids.len() && 0 <= j < after.bids[i].ids.len() implies {
        let id = #[trigger] after.bids[i].ids[j];
        &&& after.orders.contains_key(id)
        &&& after.orders[id].side == OrderSide::Buy
        &&& after.orders[id].price == after.bids[i].price
    } by {
        assert(book.orders.contains_key(book.bids[i].ids[j]));
    }
}

/// A book stays sound when a registered order is replaced by one that
/// differs in its quantities only.
pub proof fn lemma_replaced_wf(book: BookView, order: Order, touched: Set<OrderId>)
    requires
        book.wf_but(touched),
        book.orders.contains_key(order.id),
        order == (Order {
            remaining_quantity: order.remaining_quantity,
            virtual_remaining_quantity: order.virtual_remaining_quantity,
            ..book.orders[order.id]
        }),
        order.remaining_quantity > 0,
        order.virtual_remaining_quantity <= order.remaining_quantity,
        touched.contains(order.id) || order.at_rest(),
    ensures
        (BookView { orders: book.orders.insert(order.id, order), ..book }).wf_but(touched),
{
    let after = BookView { orders: book.orders.insert(order.id, order), ..book };
    assert forall|id: OrderId| #[trigger] after.orders.contains_key(id) implies {
        let entry = after.orders[id];
        &&& entry.id == id
        &&& entry.type_ == OrderType::Normal
        &&& entry.remaining_quantity > 0
        &&& entry.virtual_remaining_quantity <= entry.remaining_quantity
        &&& touched.contains(id) || entry.at_rest()
        &&& listed(after.side(entry.side), entry.price, id)
    } by {
        assert(book.orders.contains_key(id));
    }
    assert forall|i: int, j: int| 0 <= i < after.asks.len() && 0 <= j < after.asks[i].ids.len() implies {
        let id = #[trigger] after.asks[i].ids[j];
        &&& after.orders.contains_key(id)
        &&& after.orders[id].side == OrderSide::Sell
        &&& after.orders[id].price == after.asks[i].price
    } by {
        assert(book.orders.contains_key(book.asks[i].ids[j]));
    }
    assert forall|i: int, j: int| 0 <= i < after.bids.len() && 0 <= j < after.bids[i].ids.len() implies {
        let id = #[trigger] after.bids[i].ids[j];
        &&& after.orders.contains_key(id)
        &&& after.orders[id].side == OrderSide::Buy
        &&& after.orders[id].price == after.bids[i].price
    } by {
        assert(book.orders.contains_key(book.bids[i].ids[j]));
    }
}

/// `level` is what pruning leaves of the level at `m`.
pub open spec fn kept_from(
    levels: Seq<LevelView>,
    live: Set<OrderId>,
    m: int,
    level: LevelView,
) -> bool {
    &&& 0 <= m < levels.len()
    &&& level.price == levels[m].price
    &&& level.ids == retained(levels[m].ids, live)
}

/// `level` is what pruning leaves of one of the levels.
pub open spec fn kept_from_some(levels: Seq<LevelView>, live: Set<OrderId>, level: LevelView) -> bool {
    exists|m: int| kept_from(levels, live, m, level)
}

/// What pruning leaves: levels in strict price priority, none of them
/// empty, each of them what is left of a level that was there; and of every
/// level that keeps an order, something is left.
pub proof fn lemma_pruned_shape(levels: Seq<LevelView>, descending: bool, live: Set<OrderId>)
    requires
        ordered(levels, descending),
    ensures
        ordered(pruned(levels, live), descending),
        all_occupied(pruned(levels, live)),
        forall|k: int|
            0 <= k < pruned(levels, live).len() ==> kept_from_some(
                levels,
                live,
                #[trigger] pruned(levels, live)[k],
            ),
        forall|m: int|
            0 <= m < levels.len() && retained((#[trigger] levels[m]).ids, live).len() > 0
                ==> exists|k: int|
                0 <= k < pruned(levels, live).len() && kept_from(
                    levels,
                    live,
                    m,
                    #[trigger] pruned(levels, live)[k],
                ),
    decreases levels.len(),
{
    let after = pruned(levels, live);
    if levels.len() > 0 {
        let init = levels.drop_last();
        let last = levels.last();
        let short = pruned(init, live);
        lemma_ordered_drop_last(levels, descending);
        lemma_pruned_shape(init, descending, live);
        let kept = retained(last.ids, live);
        let grows = kept.len() != 0;
        assert forall|k: int| 0 <= k < after.len() implies kept_from_some(
            levels,
            live,
            #[trigger] after[k],
        ) by {
            if k < short.len() {
                assert(after[k] == short[k]);
                assert(kept_from_some(init, live, short[k]));
                let m = choose|m: int| kept_from(init, live, m, short[k]);
                assert(init[m] == levels[m]);
                assert(kept_from(levels, live, m, after[k]));
            } else {
                assert(kept_from(levels, live, levels.len() - 1, after[k]));
            }
        }
        assert forall|m: int|
            0 <= m < levels.len() && retained((#[trigger] levels[m]).ids, live).len()
                > 0 implies exists|k: int|
            0 <= k < after.len() && kept_from(levels, live, m, #[trigger] after[k]) by {
            if m < init.len() {
                assert(init[m] == levels[m]);
                let k = choose|k: int|
                    0 <= k < short.len() && kept_from(init, live, m, #[trigger] short[k]);
                assert(after[k] == short[k]);
                assert(kept_from(levels, live, m, after[k]));
            } else {
                assert(kept_from(levels, live, m, after[short.len() as int]));
            }
        }
        assert forall|a: int, b: int| 0 <= a < b < after.len() implies precedes(
            descending,
            (#[trigger] after[a]).price,
            (#[trigger] after[b]).price,
        ) by {
            assert(after[a] == short[a]);
            if b < short.len() {
                assert(after[b] == short[b]);
            } else {
                assert(kept_from_some(init, live, short[a]));
                let m = choose|m: int| kept_from(init, live, m, short[a]);
                assert(init[m] == levels[m]);
                assert(precedes(descending, levels[m].price, levels[levels.len() - 1].price));
            }
        }
        assert forall|k: int| 0 <= k < after.len() implies (#[trigger] after[k]).ids.len() > 0 by {
            if k < short.len() {
                assert(after[k] == short[k]);
            }
        }
    }
}

/// Making the tentative quantities of a pass final leaves a sound book,
/// given that the pass touched orders of the other side only.
pub proof fn lemma_committed_wf(amid: BookView, side: OrderSide, touched: Set<OrderId>)
    requires
        amid.wf_but(touched),
        forall|id: OrderId|
            touched.contains(id) ==> amid.orders.contains_key(id) && amid.orders[id].side
                == other_side(side),
    ensures
        amid.committed(side).wf(),
{
    let after = amid.committed(side);
    let live = after.orders.dom();
    let across = amid.side(other_side(side));
    let left = after.side(other_side(side));
    let descending = other_side(side) == OrderSide::Buy;
    assert(left == pruned(across, live));
    assert(after.side(side) == amid.side(side));
    lemma_pruned_shape(across, descending, live);
    assert forall|i: int, j: int| 0 <= i < left.len() && 0 <= j < left[i].ids.len() implies {
        let id = #[trigger] left[i].ids[j];
        &&& after.orders.contains_key(id)
        &&& after.orders[id].side == other_side(side)
        &&& after.orders[id].price == left[i].price
    } by {
        let id = left[i].ids[j];
        assert(kept_from_some(across, live, left[i]));
        let m = choose|m: int| kept_from(across, live, m, left[i]);
        lemma_retained_contains(across[m].ids, live, id);
        assert(left[i].ids.contains(id));
        let source = across[m].ids;
        let c = choose|c: int| 0 <= c < source.len() && source[c] == id;
        assert(across[m].ids[c] == id);
    }
    assert forall|i: int| 0 <= i < left.len() implies (#[trigger] left[i]).ids.no_duplicates() by {
        assert(kept_from_some(across, live, left[i]));
        let m = choose|m: int| kept_from(across, live, m, left[i]);
        assert(across[m].ids.no_duplicates());
        lemma_retained_no_duplicates(across[m].ids, live);
    }
    assert(side_registered(left, other_side(side), after.orders));
    let own = amid.side(side);
    assert forall|i: int, j: int| 0 <= i < own.len() && 0 <= j < own[i].ids.len() implies {
        let id = #[trigger] own[i].ids[j];
        &&& after.orders.contains_key(id)
        &&& after.orders[id].side == side
        &&& after.orders[id].price == own[i].price
    } by {
        let id = own[i].ids[j];
        assert(amid.orders.contains_key(id));
        assert(!touched.contains(id));
    }
    assert(side_registered(own, side, after.orders));
    assert forall|id: OrderId| #[trigger] after.orders.contains_key(id) implies {
        let order = after.orders[id];
        &&& order.id == id
        &&& order.type_ == OrderType::Normal
        &&& order.remaining_quantity > 0
        &&& order.at_rest()
        &&& listed(after.side(order.side), order.price, id)
    } by {
        let order = after.orders[id];
        assert(amid.orders.contains_key(id));
        if order.side != side {
            let m = choose|m: int|
                0 <= m < across.len() && (#[trigger] across[m]).price == order.price
                    && across[m].ids.contains(id);
            lemma_retained_contains(across[m].ids, live, id);
            let kept = retained(across[m].ids, live);
            let w = choose|w: int| 0 <= w < kept.len() && kept[w] == id;
            let k = choose|k: int|
                0 <= k < left.len() && kept_from(across, live, m, #[trigger] left[k]);
            assert(left[k].ids.contains(id));
        }
    }
}

/// Matching an order leaves a sound book.
pub proof fn lemma_after_match_wf(book: BookView, incoming: Order)
    requires
        book.wf(),
        !book.orders.contains_key(incoming.id),
        incoming.at_rest(),
    ensures
        book.after_match(incoming).wf(),
{
    let pass = book.tentative(incoming);
    lemma_tentative_sound(book, incoming);
    lemma_amid_wf(book, incoming, pass);
    let touched = resting_ids(pass.trades, incoming.side);
    assert forall|id: OrderId| touched.contains(id) implies book.amid(pass).orders.contains_key(id)
        && book.amid(pass).orders[id].side == other_side(incoming.side) by {
        let k = choose|k: int|
            0 <= k < pass.trades.len() && resting_half(
                #[trigger] pass.trades[k],
                incoming.side,
            ).order_id == id;
        assert(resting_known(book.amid(pass), incoming.side, pass.trades[k]));
    }
    lemma_committed_wf(book.amid(pass), incoming.side, touched);
    let order = book.order_after(incoming);
    if order.type_ == OrderType::Normal && order.remaining_quantity > 0 {
        lemma_with_resting_wf(book.after_pass(incoming), order, Set::empty());
    }
}

/// Meeting a resting order never gives quantity back: neither to the
/// incoming order nor to any order of the registry, which holds the same
/// orders afterwards.
pub proof fn lemma_visit_falls(incoming: Order, price: Price, id: OrderId, pass: Pass)
    ensures
        visit(incoming, price, id, pass).available <= pass.available,
        visit(incoming, price, id, pass).orders.dom() == pass.orders.dom(),
        forall|other: OrderId| #[trigger]
            pass.orders.contains_key(other) ==> visit(
                incoming,
                price,
                id,
                pass,
            ).orders[other].virtual_remaining_quantity
                <= pass.orders[other].virtual_remaining_quantity,
{
    let next = visit(incoming, price, id, pass);
    assert(next.orders.dom() =~= pass.orders.dom());
}

/// Going further through a level never gives quantity back.
pub proof fn lemma_sweep_level_falls(
    incoming: Order,
    level: LevelView,
    from: nat,
    to: nat,
    start: Pass,
)
    requires
        from <= to,
    ensures
        sweep_level(incoming, level, to, start).available <= sweep_level(
            incoming,
            level,
            from,
            start,
        ).available,
        sweep_level(incoming, level, to, start).orders.dom() == sweep_level(
            incoming,
            level,
            from,
            start,
        ).orders.dom(),
        forall|other: OrderId| #[trigger]
            sweep_level(incoming, level, from, start).orders.contains_key(other) ==> sweep_level(
                incoming,
                level,
                to,
                start,
            ).orders[other].virtual_remaining_quantity <= sweep_level(
                incoming,
                level,
                from,
                start,
            ).orders[other].virtual_remaining_quantity,
    decreases to,
{
    if from < to {
        lemma_sweep_level_falls(incoming, level, from, (to - 1) as nat, start);
        let before = sweep_level(incoming, level, (to - 1) as nat, start);
        lemma_visit_falls(incoming, level.price, level.ids[to - 1], before);
        assert forall|other: OrderId| #[trigger]
            sweep_level(incoming, level, from, start).orders.contains_key(
                other,
            ) implies sweep_level(incoming, level, to, start).orders[other].virtual_remaining_quantity
            <= sweep_level(incoming, level, from, start).orders[other].virtual_remaining_quantity by {
            assert(before.orders.contains_key(other));
        }
    }
}

/// Going through further levels never gives quantity back.
pub proof fn lemma_sweep_levels_falls(
    incoming: Order,
    levels: Seq<LevelView>,
    from: nat,
    to: nat,
    start: Pass,
)
    requires
        from <= to,
    ensures
        sweep_levels(incoming, levels, to, start).available <= sweep_levels(
            incoming,
            levels,
            from,
            start,
        ).available,
        sweep_levels(incoming, levels, to, start).orders.dom() == sweep_levels(
            incoming,
            levels,
            from,
            start,
        ).orders.dom(),
        forall|other: OrderId| #[trigger]
            sweep_levels(incoming, levels, from, start).orders.contains_key(other)
                ==> sweep_levels(incoming, levels, to, start).orders[other].virtual_remaining_quantity
                <= sweep_levels(
                incoming,
                levels,
                from,
                start,
            ).orders[other].virtual_remaining_quantity,
    decreases to,
{
    if from < to {
        lemma_sweep_levels_falls(incoming, levels, from, (to - 1) as nat, start);
        let before = sweep_levels(incoming, levels, (to - 1) as nat, start);
        lemma_sweep_level_falls(incoming, levels[to - 1], 0, levels[to - 1].ids.len(), before);
        assert forall|other: OrderId| #[trigger]
            sweep_levels(incoming, levels, from, start).orders.contains_key(
                other,
            ) implies sweep_levels(incoming, levels, to, start).orders[other].virtual_remaining_quantity
            <= sweep_levels(incoming, levels, from, start).orders[other].virtual_remaining_quantity by {
            assert(before.orders.contains_key(other));
        }
    }
}

/// Where no minimum stands in the way and the incoming order still has
/// quantity after the first `n` orders of a level, it has taken all that
/// these orders had.
pub proof fn lemma_sweep_level_drains(
    book: BookView,
    incoming: Order,
    i: int,
    n: nat,
    start: Pass,
)
    requires
        book.wf(),
        minimums_idle(book),
        !book.orders.contains_key(incoming.id),
        pass_sound(book, incoming, start),
        0 <= i < book.side(other_side(incoming.side)).len(),
        n <= book.side(other_side(incoming.side))[i].ids.len(),
        sweep_level(incoming, book.side(other_side(incoming.side))[i], n, start).available > 0,
    ensures
        forall|j: int|
            0 <= j < n ==> sweep_level(
                incoming,
                book.side(other_side(incoming.side))[i],
                n,
                start,
            ).orders[#[trigger] book.side(
                other_side(incoming.side),
            )[i].ids[j]].virtual_remaining_quantity == 0,
    decreases n,
{
    if n > 0 {
        let level = book.side(other_side(incoming.side))[i];
        let before = sweep_level(incoming, level, (n - 1) as nat, start);
        let after = sweep_level(incoming, level, n, start);
        let id = level.ids[n - 1];
        lemma_visit_falls(incoming, level.price, id, before);
        lemma_sweep_level_drains(book, incoming, i, (n - 1) as nat, start);
        lemma_sweep_level_sound(book, incoming, i, (n - 1) as nat, start);
        assert(book.orders.contains_key(id));
        assert(before.orders.contains_key(id));
        assert forall|j: int| 0 <= j < n implies after.orders[#[trigger] level.ids[j]].virtual_remaining_quantity
            == 0 by {
            assert(book.orders.contains_key(level.ids[j]));
            assert(before.orders.contains_key(level.ids[j]));
        }
    }
}

/// Where no minimum stands in the way and the incoming order still has
/// quantity after the first `m` levels, it has taken all that the orders of
/// these levels had.
pub proof fn lemma_sweep_levels_drains(book: BookView, incoming: Order, m: nat, start: Pass)
    requires
        book.wf(),
        minimums_idle(book),
        !book.orders.contains_key(incoming.id),
        pass_sound(book, incoming, start),
        m <= book.side(other_side(incoming.side)).len(),
        sweep_levels(incoming, book.side(other_side(incoming.side)), m, start).available > 0,
    ensures
        forall|i: int, j: int|
            0 <= i < m && 0 <= j < book.side(other_side(incoming.side))[i].ids.len()
                ==> sweep_levels(
                incoming,
                book.side(other_side(incoming.side)),
                m,
                start,
            ).orders[#[trigger] book.side(
                other_side(incoming.side),
            )[i].ids[j]].virtual_remaining_quantity == 0,
    decreases m,
{
    if m > 0 {
        let levels = book.side(other_side(incoming.side));
        let before = sweep_levels(incoming, levels, (m - 1) as nat, start);
        let after = sweep_levels(incoming, levels, m, start);
        let level = levels[m - 1];
        lemma_sweep_level_falls(incoming, level, 0, level.ids.len(), before);
        lemma_sweep_levels_drains(book, incoming, (m - 1) as nat, start);
        lemma_sweep_levels_sound(book, incoming, (m - 1) as nat, start);
        lemma_sweep_level_drains(book, incoming, m - 1, level.ids.len(), before);
        assert forall|i: int, j: int| 0 <= i < m && 0 <= j < levels[i].ids.len() implies after.orders[
        #[trigger] levels[i].ids[j]].virtual_remaining_quantity == 0 by {
            assert(book.orders.contains_key(levels[i].ids[j]));
            assert(before.orders.contains_key(levels[i].ids[j]));
        }
    }
}

/// `whole` begins with the trades of `part`.
pub open spec fn begins_with(whole: Seq<Trade>, part: Seq<Trade>) -> bool {
    &&& part.len() <= whole.len()
    &&& forall|k: int| 0 <= k < part.len() ==> whole[k] == part[k]
}

/// Going further through a level only adds candidate trades, after those
/// that are there.
pub proof fn lemma_sweep_level_grows(
    incoming: Order,
    level: LevelView,
    from: nat,
    to: nat,
    start: Pass,
)
    requires
        from <= to,
    ensures
        begins_with(
            sweep_level(incoming, level, to, start).trades,
            sweep_level(incoming, level, from, start).trades,
        ),
    decreases to,
{
    if from < to {
        lemma_sweep_level_grows(incoming, level, from, (to - 1) as nat, start);
    }
}

/// Going through further levels only adds candidate trades, after those
/// that are there.
pub proof fn lemma_sweep_levels_grows(
    incoming: Order,
    levels: Seq<LevelView>,
    from: nat,
    to: nat,
    start: Pass,
)
    requires
        from <= to,
    ensures
        begins_with(
            sweep_levels(incoming, levels, to, start).trades,
            sweep_levels(incoming, levels, from, start).trades,
        ),
    decreases to,
{
    if from < to {
        lemma_sweep_levels_grows(incoming, levels, from, (to - 1) as nat, start);
        let before = sweep_levels(incoming, levels, (to - 1) as nat, start);
        lemma_sweep_level_grows(incoming, levels[to - 1], 0, levels[to - 1].ids.len(), before);
    }
}

/// Going through a level leaves every order alone that is not met.
pub proof fn lemma_sweep_level_elsewhere(
    incoming: Order,
    level: LevelView,
    n: nat,
    start: Pass,
    id: OrderId,
)
    requires
        n <= level.ids.len(),
        forall|j: int| 0 <= j < n ==> level.ids[j] != id,
    ensures
        sweep_level(incoming, level, n, start).orders.contains_key(id)
            == start.orders.contains_key(id),
        sweep_level(incoming, level, n, start).orders[id] == start.orders[id],
    decreases n,
{
    if n > 0 {
        lemma_sweep_level_elsewhere(incoming, level, (n - 1) as nat, start, id);
    }
}

/// Going through levels leaves every order alone that is not met.
pub proof fn lemma_sweep_levels_elsewhere(
    incoming: Order,
    levels: Seq<LevelView>,
    m: nat,
    start: Pass,
    id: OrderId,
)
    requires
        m <= levels.len(),
        forall|i: int, j: int|
            0 <= i < m && 0 <= j < levels[i].ids.len() ==> #[trigger] levels[i].ids[j] != id,
    ensures
        sweep_levels(incoming, levels, m, start).orders.contains_key(id)
            == start.orders.contains_key(id),
        sweep_levels(incoming, levels, m, start).orders[id] == start.orders[id],
    decreases m,
{
    if m > 0 {
        lemma_sweep_levels_elsewhere(incoming, levels, (m - 1) as nat, start, id);
        let before = sweep_levels(incoming, levels, (m - 1) as nat, start);
        let ids = levels[m - 1].ids;
        assert forall|j: int| 0 <= j < ids.len() implies ids[j] != id by {
            assert(levels[m - 1].ids[j] != id);
        }
        lemma_sweep_level_elsewhere(incoming, levels[m - 1], levels[m - 1].ids.len(), before, id);
    }
}

} // verus!
