//! The price-level index of one side of the book.
//!
//! A side is a sequence of price levels, best price first. Each level holds
//! the identifiers of the orders resting at its price, oldest first.

use super::{OrderId, Price};
use vstd::prelude::*;

verus! {

/// One price level as the contracts see it: a price and the identifiers
/// resting there, oldest first.
pub struct LevelView {
    pub price: Price,
    pub ids: Seq<OrderId>,
}

/// Price `a` is strictly better than price `b` on a side whose best price is
/// the highest (`descending`) or the lowest one.
pub open spec fn precedes(descending: bool, a: Price, b: Price) -> bool {
    if descending {
        a > b
    } else {
        a < b
    }
}

/// The levels stand in strict price priority: best first, no price twice.
pub open spec fn ordered(levels: Seq<LevelView>, descending: bool) -> bool {
    forall|i: int, j: int|
        0 <= i < j < levels.len() ==> precedes(
            descending,
            (#[trigger] levels[i]).price,
            (#[trigger] levels[j]).price,
        )
}

/// Some level carries this price.
pub open spec fn has_level(levels: Seq<LevelView>, price: Price) -> bool {
    exists|i: int| 0 <= i < levels.len() && (#[trigger] levels[i]).price == price
}

/// The index of a level that carries this price, where there is one.
pub open spec fn level_at(levels: Seq<LevelView>, price: Price) -> int {
    choose|i: int| 0 <= i < levels.len() && (#[trigger] levels[i]).price == price
}

/// `k` splits the levels into those strictly better than `price` and the rest.
pub open spec fn is_slot(levels: Seq<LevelView>, descending: bool, price: Price, k: int) -> bool {
    &&& 0 <= k <= levels.len()
    &&& forall|i: int| 0 <= i < k ==> precedes(descending, (#[trigger] levels[i]).price, price)
    &&& forall|i: int|
        k <= i < levels.len() ==> !precedes(descending, (#[trigger] levels[i]).price, price)
}

/// How many levels are strictly better than `price`: where its level stands
/// or would be put.
pub open spec fn slot(levels: Seq<LevelView>, descending: bool, price: Price) -> int {
    choose|k: int| is_slot(levels, descending, price, k)
}

/// `j` is where `id` first occurs in `ids`.
pub open spec fn is_first_index(ids: Seq<OrderId>, id: OrderId, j: int) -> bool {
    &&& 0 <= j < ids.len()
    &&& ids[j] == id
    &&& forall|k: int| 0 <= k < j ==> ids[k] != id
}

/// The index at which `id` first occurs in `ids`, where it occurs.
pub open spec fn first_index(ids: Seq<OrderId>, id: OrderId) -> int {
    choose|j: int| is_first_index(ids, id, j)
}

/// The level at `price` holds `id`.
pub open spec fn holds(levels: Seq<LevelView>, price: Price, id: OrderId) -> bool {
    has_level(levels, price) && levels[level_at(levels, price)].ids.contains(id)
}

/// The side after `id` joined the tail of the level at `price`, a level that
/// is created in its place of the priority order if it was not there.
pub open spec fn with_order(
    levels: Seq<LevelView>,
    descending: bool,
    price: Price,
    id: OrderId,
) -> Seq<LevelView> {
    if has_level(levels, price) {
        let i = level_at(levels, price);
        levels.update(i, LevelView { price, ids: levels[i].ids.push(id) })
    } else {
        levels.insert(slot(levels, descending, price), LevelView { price, ids: seq![id] })
    }
}

/// The side after the first occurrence of `id` left the level at `price`; a
/// level that this empties leaves with it. Unchanged where the level does
/// not hold `id`.
pub open spec fn without_order(levels: Seq<LevelView>, price: Price, id: OrderId) -> Seq<
    LevelView,
> {
    if holds(levels, price, id) {
        let i = level_at(levels, price);
        let rest = levels[i].ids.remove(first_index(levels[i].ids, id));
        if rest.len() == 0 {
            levels.remove(i)
        } else {
            levels.update(i, LevelView { price, ids: rest })
        }
    } else {
        levels
    }
}

/// The levels that hold at least one order, in their order.
pub open spec fn without_empty(levels: Seq<LevelView>) -> Seq<LevelView>
    decreases levels.len(),
{
    if levels.len() == 0 {
        levels
    } else if levels.last().ids.len() == 0 {
        without_empty(levels.drop_last())
    } else {
        without_empty(levels.drop_last()).push(levels.last())
    }
}

/// No level is empty.
pub open spec fn all_occupied(levels: Seq<LevelView>) -> bool {
    forall|i: int| 0 <= i < levels.len() ==> (#[trigger] levels[i]).ids.len() > 0
}

/// The prices of the levels, best first.
pub open spec fn prices_of(levels: Seq<LevelView>) -> Seq<Price> {
    Seq::new(levels.len(), |i: int| levels[i].price)
}

/// In strictly ordered levels a price names at most one level.
pub proof fn lemma_level_unique(levels: Seq<LevelView>, descending: bool, price: Price, i: int)
    requires
        ordered(levels, descending),
        0 <= i < levels.len(),
        levels[i].price == price,
    ensures
        has_level(levels, price),
        level_at(levels, price) == i,
{
    let k = level_at(levels, price);
    if k < i {
        assert(precedes(descending, levels[k].price, levels[i].price));
    } else if i < k {
        assert(precedes(descending, levels[i].price, levels[k].price));
    }
}

/// The place of a price in the priority order is determined.
pub proof fn lemma_slot_unique(levels: Seq<LevelView>, descending: bool, price: Price, k: int)
    requires
        is_slot(levels, descending, price, k),
    ensures
        slot(levels, descending, price) == k,
{
    let s = slot(levels, descending, price);
    if s < k {
        assert(precedes(descending, levels[s].price, price));
    } else if k < s {
        assert(precedes(descending, levels[k].price, price));
    }
}

/// The first occurrence of an identifier is determined.
pub proof fn lemma_first_index_unique(ids: Seq<OrderId>, id: OrderId, j: int)
    requires
        is_first_index(ids, id, j),
    ensures
        first_index(ids, id) == j,
        ids.contains(id),
{
    let f = first_index(ids, id);
    assert(is_first_index(ids, id, f));
}

/// Levels stay in strict price priority when one of them is replaced by a
/// level of the same price.
pub proof fn lemma_ordered_update(
    levels: Seq<LevelView>,
    descending: bool,
    i: int,
    level: LevelView,
)
    requires
        ordered(levels, descending),
        0 <= i < levels.len(),
        level.price == levels[i].price,
    ensures
        ordered(levels.update(i, level), descending),
{
    let after = levels.update(i, level);
    assert forall|a: int, b: int| 0 <= a < b < after.len() implies precedes(
        descending,
        (#[trigger] after[a]).price,
        (#[trigger] after[b]).price,
    ) by {
        assert(after[a].price == levels[a].price);
        assert(after[b].price == levels[b].price);
    }
}

/// All but the last of levels in strict price priority are in strict price
/// priority.
pub proof fn lemma_ordered_drop_last(levels: Seq<LevelView>, descending: bool)
    requires
        ordered(levels, descending),
        levels.len() > 0,
    ensures
        ordered(levels.drop_last(), descending),
{
    let init = levels.drop_last();
    assert forall|a: int, b: int| 0 <= a < b < init.len() implies precedes(
        descending,
        (#[trigger] init[a]).price,
        (#[trigger] init[b]).price,
    ) by {
        assert(init[a] == levels[a] && init[b] == levels[b]);
    }
}

/// Levels stay in strict price priority when one of them leaves.
pub proof fn lemma_ordered_remove(levels: Seq<LevelView>, descending: bool, i: int)
    requires
        ordered(levels, descending),
        0 <= i < levels.len(),
    ensures
        ordered(levels.remove(i), descending),
{
    let after = levels.remove(i);
    assert forall|a: int, b: int| 0 <= a < b < after.len() implies precedes(
        descending,
        (#[trigger] after[a]).price,
        (#[trigger] after[b]).price,
    ) by {
        let pa = if a < i { a } else { a + 1 };
        let pb = if b < i { b } else { b + 1 };
        assert(after[a] == levels[pa]);
        assert(after[b] == levels[pb]);
        assert(precedes(descending, levels[pa].price, levels[pb].price));
    }
}

/// Levels stay in strict price priority when a level of a new price joins
/// them in its place.
pub proof fn lemma_ordered_insert(
    levels: Seq<LevelView>,
    descending: bool,
    k: int,
    level: LevelView,
)
    requires
        ordered(levels, descending),
        is_slot(levels, descending, level.price, k),
        !has_level(levels, level.price),
    ensures
        ordered(levels.insert(k, level), descending),
{
    let after = levels.insert(k, level);
    assert forall|a: int, b: int| 0 <= a < b < after.len() implies precedes(
        descending,
        (#[trigger] after[a]).price,
        (#[trigger] after[b]).price,
    ) by {
        let pa = if a < k { a } else { a - 1 };
        let pb = if b < k { b } else { b - 1 };
        if a != k {
            assert(after[a] == levels[pa]);
        }
        if b != k {
            assert(after[b] == levels[pb]);
            assert(levels[pb].price != level.price);
        }
        if a != k && b != k {
            assert(precedes(descending, levels[pa].price, levels[pb].price));
        }
    }
}

/// Dropping the empty levels of two runs of levels, one after the other,
/// drops the empty levels of the whole.
pub proof fn lemma_without_empty_concat(a: Seq<LevelView>, b: Seq<LevelView>)
    ensures
        without_empty(a + b) == without_empty(a) + without_empty(b),
    decreases b.len(),
{
    if b.len() == 0 {
        assert(a + b =~= a);
        assert(without_empty(a) + without_empty(b) =~= without_empty(a));
    } else {
        lemma_without_empty_concat(a, b.drop_last());
        assert((a + b).drop_last() =~= a + b.drop_last());
        assert((a + b).last() == b.last());
        if b.last().ids.len() == 0 {
        } else {
            assert(without_empty(a) + without_empty(b.drop_last()).push(b.last()) =~= (
            without_empty(a) + without_empty(b.drop_last())).push(b.last()));
        }
    }
}

/// Where no level is empty there is nothing to drop.
pub proof fn lemma_without_empty_occupied(levels: Seq<LevelView>)
    requires
        all_occupied(levels),
    ensures
        without_empty(levels) == levels,
    decreases levels.len(),
{
    if levels.len() > 0 {
        assert forall|i: int| 0 <= i < levels.drop_last().len() implies (
        #[trigger] levels.drop_last()[i]).ids.len() > 0 by {
            assert(levels.drop_last()[i] == levels[i]);
        }
        lemma_without_empty_occupied(levels.drop_last());
        assert(levels.drop_last().push(levels.last()) =~= levels);
    }
}

/// One price level: the orders resting at a price, oldest first.
#[derive(Debug)]
struct PriceLevel {
    price: Price,
    orders: Vec<OrderId>,
}

impl View for PriceLevel {
    type V = LevelView;

    closed spec fn view(&self) -> LevelView {
        LevelView { price: self.price, ids: self.orders@ }
    }
}

/// The levels of one side, kept in priority order in a vector.
#[derive(Debug)]
struct GenericOrderLevels<const DESCENDING: bool> {
    levels: Vec<PriceLevel>,
}

impl<const DESCENDING: bool> GenericOrderLevels<DESCENDING> {
    spec fn view(&self) -> Seq<LevelView> {
        Seq::new(self.levels@.len(), |i: int| self.levels@[i]@)
    }

    fn new() -> (levels: Self)
        ensures
            levels.view() == Seq::<LevelView>::empty(),
    {
        let levels = Self { levels: Vec::new() };
        assert(levels.view() =~= Seq::<LevelView>::empty());
        levels
    }

    fn before(a: Price, b: Price) -> (r: bool)
        ensures
            r == precedes(DESCENDING, a, b),
    {
        if DESCENDING {
            a > b
        } else {
            a < b
        }
    }

    /// The index of the level at `price`.
    fn find_level(&self, price: Price) -> (found: Option<usize>)
        requires
            ordered(self.view(), DESCENDING),
        ensures
            found.is_some() == has_level(self.view(), price),
            found matches Some(i) ==> i == level_at(self.view(), price) && i < self.levels.len()
                && self.levels[i as int].price == price,
    {
        let mut i: usize = 0;
        while i < self.levels.len()
            invariant
                i <= self.levels.len(),
                ordered(self.view(), DESCENDING),
                forall|k: int| 0 <= k < i ==> (#[trigger] self.view()[k]).price != price,
            decreases self.levels.len() - i,
        {
            if self.levels[i].price == price {
                proof {
                    assert(self.view()[i as int].price == price);
                    lemma_level_unique(self.view(), DESCENDING, price, i as int);
                }
                return Some(i);
            }
            assert(self.view()[i as int].price != price);
            i += 1;
        }
        None
    }

    fn insert_order(&mut self, price: Price, order_id: OrderId)
        requires
            ordered(old(self).view(), DESCENDING),
        ensures
            final(self).view() == with_order(old(self).view(), DESCENDING, price, order_id),
            ordered(final(self).view(), DESCENDING),
    {
        let ghost before = self.view();
        let mut i: usize = 0;
        while i < self.levels.len() && Self::before(self.levels[i].price, price)
            invariant
                i <= self.levels.len(),
                self.view() == before,
                forall|k: int| 0 <= k < i ==> precedes(DESCENDING, (#[trigger] before[k]).price, price),
            decreases self.levels.len() - i,
        {
            assert(before[i as int].price == self.levels[i as int].price);
            i += 1;
        }
        if i < self.levels.len() && self.levels[i].price == price {
            proof {
                assert(before[i as int].price == price);
                lemma_level_unique(before, DESCENDING, price, i as int);
            }
            self.levels[i].orders.push(order_id);
            proof {
                let after = self.view();
                let expect = with_order(before, DESCENDING, price, order_id);
                assert(after.len() == expect.len());
                assert forall|k: int| 0 <= k < after.len() implies after[k] == expect[k] by {
                    assert(after[k] == self.levels@[k]@);
                    assert(before[k] == old(self).levels@[k]@);
                    if k != i {
                        assert(self.levels@[k] == old(self).levels@[k]);
                    }
                }
                assert(after =~= expect);
                lemma_ordered_update(before, DESCENDING, i as int, expect[i as int]);
            }
        } else {
            proof {
                assert forall|k: int| i <= k < before.len() implies !precedes(
                    DESCENDING,
                    (#[trigger] before[k]).price,
                    price,
                ) && before[k].price != price by {
                    assert(before[i as int].price == self.levels[i as int].price);
                    if k > i {
                        assert(precedes(DESCENDING, before[i as int].price, before[k].price));
                    }
                }
                assert(is_slot(before, DESCENDING, price, i as int));
                lemma_slot_unique(before, DESCENDING, price, i as int);
                assert(!has_level(before, price)) by {
                    if has_level(before, price) {
                        let w = level_at(before, price);
                        if w < i {
                            assert(precedes(DESCENDING, before[w].price, price));
                        }
                    }
                }
            }
            let mut orders: Vec<OrderId> = Vec::new();
            orders.push(order_id);
            self.levels.insert(i, PriceLevel { price, orders });
            proof {
                let after = self.view();
                let expect = with_order(before, DESCENDING, price, order_id);
                assert(after.len() == expect.len());
                assert forall|k: int| 0 <= k < after.len() implies after[k] == expect[k] by {
                    assert(after[k] == self.levels@[k]@);
                    if k < i {
                        assert(before[k] == old(self).levels@[k]@);
                    } else if k > i {
                        assert(before[k - 1] == old(self).levels@[k - 1]@);
                    } else {
                        assert(self.levels@[k]@.ids =~= seq![order_id]);
                    }
                }
                assert(after =~= expect);
                lemma_ordered_insert(
                    before,
                    DESCENDING,
                    i as int,
                    LevelView { price, ids: seq![order_id] },
                );
            }
        }
    }

    /// Where `order_id` first occurs among the orders of the level at `i`.
    fn position(&self, i: usize, order_id: OrderId) -> (found: Option<usize>)
        requires
            i < self.levels.len(),
        ensures
            found.is_some() == self.view()[i as int].ids.contains(order_id),
            found matches Some(j) ==> is_first_index(self.view()[i as int].ids, order_id, j as int),
    {
        let ghost ids = self.view()[i as int].ids;
        assert(ids == self.levels[i as int].orders@);
        let mut j: usize = 0;
        while j < self.levels[i].orders.len()
            invariant
                i < self.levels.len(),
                ids == self.levels[i as int].orders@,
                j <= ids.len(),
                forall|k: int| 0 <= k < j ==> ids[k] != order_id,
            decreases ids.len() - j,
        {
            if self.levels[i].orders[j] == order_id {
                return Some(j);
            }
            j += 1;
        }
        None
    }

    fn remove_order(&mut self, price: &Price, order_id: &OrderId) -> (removed: bool)
        requires
            ordered(old(self).view(), DESCENDING),
        ensures
            removed == holds(old(self).view(), *price, *order_id),
            final(self).view() == without_order(old(self).view(), *price, *order_id),
            ordered(final(self).view(), DESCENDING),
    {
        let ghost before = self.view();
        if let Some(i) = self.find_level(*price) {
            if let Some(j) = self.position(i, *order_id) {
                proof {
                    lemma_first_index_unique(before[i as int].ids, *order_id, j as int);
                }
                self.levels[i].orders.remove(j);
                if self.levels[i].orders.is_empty() {
                    self.levels.remove(i);
                    proof {
                        let after = self.view();
                        let expect = without_order(before, *price, *order_id);
                        assert(before[i as int].ids.remove(j as int).len() == 0);
                        assert(after.len() == expect.len());
                        assert forall|k: int| 0 <= k < after.len() implies after[k] == expect[k] by {
                            assert(after[k] == self.levels@[k]@);
                            if k < i {
                                assert(before[k] == old(self).levels@[k]@);
                            } else {
                                assert(before[k + 1] == old(self).levels@[k + 1]@);
                            }
                        }
                        assert(after =~= expect);
                        lemma_ordered_remove(before, DESCENDING, i as int);
                    }
                } else {
                    proof {
                        let after = self.view();
                        let expect = without_order(before, *price, *order_id);
                        assert(after.len() == expect.len());
                        assert forall|k: int| 0 <= k < after.len() implies after[k] == expect[k] by {
                            assert(after[k] == self.levels@[k]@);
                            assert(before[k] == old(self).levels@[k]@);
                        }
                        assert(after =~= expect);
                        lemma_ordered_update(before, DESCENDING, i as int, expect[i as int]);
                    }
                }
                return true;
            }
        }
        false
    }

    fn get_order(&self, price: Price, offset: usize) -> (order_id: Option<OrderId>)
        requires
            ordered(self.view(), DESCENDING),
        ensures
            order_id == order_at(self.view(), price, offset as int),
    {
        match self.find_level(price) {
            Some(i) => {
                assert(self.view()[i as int].ids == self.levels[i as int].orders@);
                if offset < self.levels[i].orders.len() {
                    Some(self.levels[i].orders[offset])
                } else {
                    None
                }
            },
            None => None,
        }
    }

    fn get_prices(&self) -> (prices: Vec<Price>)
        ensures
            prices@ == prices_of(self.view()),
    {
        let mut prices: Vec<Price> = Vec::new();
        let mut i: usize = 0;
        while i < self.levels.len()
            invariant
                i <= self.levels.len(),
                prices@.len() == i,
                forall|k: int| 0 <= k < i ==> prices@[k] == (#[trigger] self.view()[k]).price,
            decreases self.levels.len() - i,
        {
            prices.push(self.levels[i].price);
            i += 1;
        }
        assert(prices@ =~= prices_of(self.view()));
        prices
    }

    fn get_best_price(&self) -> (best: Option<Price>)
        ensures
            best == best_price(self.view()),
    {
        if self.levels.len() > 0 {
            assert(self.view()[0].price == self.levels[0].price);
            Some(self.levels[0].price)
        } else {
            None
        }
    }

    fn get_orders(&self, price: &Price) -> (orders: Option<&Vec<OrderId>>)
        requires
            ordered(self.view(), DESCENDING),
        ensures
            orders.is_some() == has_level(self.view(), *price),
            orders matches Some(ids) ==> ids@ == self.view()[level_at(self.view(), *price)].ids,
    {
        match self.find_level(*price) {
            Some(i) => {
                assert(self.view()[i as int].ids == self.levels[i as int].orders@);
                Some(&self.levels[i].orders)
            },
            None => None,
        }
    }

    fn remove_empty_levels(&mut self)
        requires
            ordered(old(self).view(), DESCENDING),
        ensures
            final(self).view() == without_empty(old(self).view()),
            ordered(final(self).view(), DESCENDING),
    {
        let ghost before = self.view();
        let mut i: usize = self.levels.len();
        proof {
            assert(before.take(i as int) =~= before);
            assert(before.skip(i as int) =~= Seq::<LevelView>::empty());
            assert(self.view() =~= before.take(i as int) + without_empty(before.skip(i as int)));
        }
        while i > 0
            invariant
                i <= before.len(),
                i <= self.levels.len(),
                self.view() == before.take(i as int) + without_empty(before.skip(i as int)),
                ordered(self.view(), DESCENDING),
            decreases i,
        {
            let ghost current = self.view();
            i -= 1;
            proof {
                let tail = before.skip(i as int);
                let head = seq![before[i as int]];
                assert(tail =~= head + before.skip(i + 1));
                lemma_without_empty_concat(head, before.skip(i + 1));
                assert(head.drop_last() =~= Seq::<LevelView>::empty());
                assert(without_empty(head) == if before[i as int].ids.len() == 0 {
                    Seq::<LevelView>::empty()
                } else {
                    head
                }) by {
                    assert(without_empty(head.drop_last()) =~= Seq::<LevelView>::empty());
                    if before[i as int].ids.len() != 0 {
                        assert(without_empty(head.drop_last()).push(head.last()) =~= head);
                    }
                }
                assert(current[i as int] == before[i as int]);
                assert(current[i as int] == self.levels@[i as int]@);
            }
            if self.levels[i].orders.is_empty() {
                self.levels.remove(i);
                proof {
                    let after = self.view();
                    let expect = before.take(i as int) + without_empty(before.skip(i as int));
                    assert(before[i as int].ids.len() == 0);
                    assert(without_empty(before.skip(i as int)) =~= without_empty(
                        before.skip(i + 1),
                    ));
                    assert(current.len() == i + 1 + without_empty(before.skip(i + 1)).len());
                    assert(after.len() == expect.len());
                    assert forall|k: int| 0 <= k < after.len() implies after[k] == expect[k] by {
                        assert(after[k] == self.levels@[k]@);
                        if k < i {
                            assert(current[k] == before[k]);
                        } else {
                            assert(current[k + 1] == expect[k]);
                        }
                    }
                    assert(after =~= expect);
                    assert(after =~= current.remove(i as int));
                    lemma_ordered_remove(current, DESCENDING, i as int);
                }
            } else {
                proof {
                    let expect = before.take(i as int) + without_empty(before.skip(i as int));
                    assert(before[i as int].ids.len() != 0);
                    assert(before.take(i + 1) =~= before.take(i as int) + seq![before[i as int]]);
                    assert(current =~= expect);
                }
            }
        }
        proof {
            assert(before.skip(0) =~= before);
            assert(before.take(0) + without_empty(before) =~= without_empty(before));
        }
    }
}

/// The best price of a side, where it has a level.
pub open spec fn best_price(levels: Seq<LevelView>) -> Option<Price> {
    if levels.len() > 0 {
        Some(levels[0].price)
    } else {
        None
    }
}

/// The identifier at `offset` in the level at `price`, where both exist.
pub open spec fn order_at(levels: Seq<LevelView>, price: Price, offset: int) -> Option<OrderId> {
    if has_level(levels, price) && 0 <= offset < levels[level_at(levels, price)].ids.len() {
        Some(levels[level_at(levels, price)].ids[offset])
    } else {
        None
    }
}

/// The operations of one side's price-level index.
///
/// A side is read through its view, the levels best price first. Every
/// operation keeps the levels in strict price priority.
pub trait OrderLevels: Sized {
    /// The levels, best price first.
    spec fn view(&self) -> Seq<LevelView>;

    /// Whether the best price of this side is the highest one.
    spec fn descending() -> bool;

    /// A side without levels.
    fn new() -> (levels: Self)
        ensures
            levels@ == Seq::<LevelView>::empty(),
    ;

    /// Appends `order_id` to the level at `price`, creating the level where
    /// it is missing.
    fn insert_order(&mut self, price: Price, order_id: OrderId)
        requires
            ordered(old(self)@, Self::descending()),
        ensures
            final(self)@ == with_order(old(self)@, Self::descending(), price, order_id),
            ordered(final(self)@, Self::descending()),
    ;

    /// Takes `order_id` out of the level at `price` and says whether it was
    /// there. A level that this empties is removed.
    fn remove_order(&mut self, price: &Price, order_id: &OrderId) -> (removed: bool)
        requires
            ordered(old(self)@, Self::descending()),
        ensures
            removed == holds(old(self)@, *price, *order_id),
            final(self)@ == without_order(old(self)@, *price, *order_id),
            ordered(final(self)@, Self::descending()),
    ;

    /// The identifier at `offset`, counted from the oldest, in the level at
    /// `price`.
    fn get_order(&self, price: Price, offset: usize) -> (order_id: Option<OrderId>)
        requires
            ordered(self@, Self::descending()),
        ensures
            order_id == order_at(self@, price, offset as int),
    ;

    /// The prices that have a level, best first.
    fn get_prices(&self) -> (prices: Vec<Price>)
        ensures
            prices@ == prices_of(self@),
    ;

    /// The best price, where the side has a level.
    fn get_best_price(&self) -> (best: Option<Price>)
        ensures
            best == best_price(self@),
    ;

    /// The identifiers resting at `price`, oldest first.
    fn get_orders(&self, price: &Price) -> (orders: Option<&Vec<OrderId>>)
        requires
            ordered(self@, Self::descending()),
        ensures
            orders.is_some() == has_level(self@, *price),
            orders matches Some(ids) ==> ids@ == self@[level_at(self@, *price)].ids,
    ;

    /// Removes the levels that hold no order.
    fn remove_empty_levels(&mut self)
        requires
            ordered(old(self)@, Self::descending()),
        ensures
            final(self)@ == without_empty(old(self)@),
            ordered(final(self)@, Self::descending()),
    ;
}

/// The selling side: the lowest price is the best.
#[derive(Debug)]
pub struct AskOrderLevels {
    inner: GenericOrderLevels<false>,
}

impl OrderLevels for AskOrderLevels {
    closed spec fn view(&self) -> Seq<LevelView> {
        self.inner.view()
    }

    open spec fn descending() -> bool {
        false
    }

    fn new() -> (levels: Self) {
        Self { inner: GenericOrderLevels::new() }
    }

    fn insert_order(&mut self, price: Price, order_id: OrderId) {
        self.inner.insert_order(price, order_id);
    }

    fn remove_order(&mut self, price: &Price, order_id: &OrderId) -> (removed: bool) {
        self.inner.remove_order(price, order_id)
    }

    fn get_order(&self, price: Price, offset: usize) -> (order_id: Option<OrderId>) {
        self.inner.get_order(price, offset)
    }

    fn get_prices(&self) -> (prices: Vec<Price>) {
        self.inner.get_prices()
    }

    fn get_best_price(&self) -> (best: Option<Price>) {
        self.inner.get_best_price()
    }

    fn get_orders(&self, price: &Price) -> (orders: Option<&Vec<OrderId>>) {
        self.inner.get_orders(price)
    }

    fn remove_empty_levels(&mut self) {
        self.inner.remove_empty_levels();
    }
}

/// The buying side: the highest price is the best.
#[derive(Debug)]
pub struct BidOrderLevels {
    inner: GenericOrderLevels<true>,
}

impl OrderLevels for BidOrderLevels {
    closed spec fn view(&self) -> Seq<LevelView> {
        self.inner.view()
    }

    open spec fn descending() -> bool {
        true
    }

    fn new() -> (levels: Self) {
        Self { inner: GenericOrderLevels::new() }
    }

    fn insert_order(&mut self, price: Price, order_id: OrderId) {
        self.inner.insert_order(price, order_id);
    }

    fn remove_order(&mut self, price: &Price, order_id: &OrderId) -> (removed: bool) {
        self.inner.remove_order(price, order_id)
    }

    fn get_order(&self, price: Price, offset: usize) -> (order_id: Option<OrderId>) {
        self.inner.get_order(price, offset)
    }

    fn get_prices(&self) -> (prices: Vec<Price>) {
        self.inner.get_prices()
    }

    fn get_best_price(&self) -> (best: Option<Price>) {
        self.inner.get_best_price()
    }

    fn get_orders(&self, price: &Price) -> (orders: Option<&Vec<OrderId>>) {
        self.inner.get_orders(price)
    }

    fn remove_empty_levels(&mut self) {
        self.inner.remove_empty_levels();
    }
}

} // verus!
