//! The binary envelope of a market data update.
//!
//! An update is written as one byte that tells a trade (0) from a
//! cancellation (1), followed by the fields in their order: an identifier as
//! its sixteen bytes, most significant first; a price or a quantity as eight
//! bytes, least significant first, a price in two's complement; a side, an
//! order type or a kind of cancellation as one byte, 0 or 1.

use crate::orderbook::{
    CancelledOrder, MarketDataUpdate, Order, OrderId, OrderSide, OrderType, Price, Quantity, Trade,
    TradeInfo,
};
use crate::web_server::CancelRequestType;
use vstd::bytes::{
    lemma_auto_spec_u128_to_from_le_bytes, lemma_auto_spec_u64_to_from_le_bytes,
    spec_u128_to_le_bytes, spec_u64_to_le_bytes, u128_from_le_bytes, u128_to_le_bytes,
    u64_from_le_bytes, u64_to_le_bytes,
};
use vstd::prelude::*;
use vstd::slice::slice_subrange;

verus! {

/// The bytes in the opposite order.
pub open spec fn reversed(bytes: Seq<u8>) -> Seq<u8> {
    Seq::new(bytes.len(), |i: int| bytes[bytes.len() - 1 - i])
}

/// An identifier on the wire: sixteen bytes, most significant first.
pub open spec fn id_bytes(id: OrderId) -> Seq<u8> {
    reversed(spec_u128_to_le_bytes(id))
}

/// A quantity on the wire: eight bytes, least significant first.
pub open spec fn quantity_bytes(quantity: Quantity) -> Seq<u8> {
    spec_u64_to_le_bytes(quantity)
}

/// A price on the wire: eight bytes of its two's complement, least
/// significant first.
pub open spec fn price_bytes(price: Price) -> Seq<u8> {
    spec_u64_to_le_bytes(price as u64)
}

/// A side on the wire.
pub open spec fn side_byte(side: OrderSide) -> u8 {
    match side {
        OrderSide::Buy => 0,
        OrderSide::Sell => 1,
    }
}

/// An order type on the wire.
pub open spec fn type_byte(type_: OrderType) -> u8 {
    match type_ {
        OrderType::Normal => 0,
        OrderType::Kill => 1,
    }
}

/// A kind of cancellation on the wire.
pub open spec fn kind_byte(kind: CancelRequestType) -> u8 {
    match kind {
        CancelRequestType::Internal => 0,
        CancelRequestType::External => 1,
    }
}

/// One half of a trade on the wire.
pub open spec fn trade_info_bytes(info: TradeInfo) -> Seq<u8> {
    id_bytes(info.order_id) + price_bytes(info.price) + quantity_bytes(info.quantity)
}

/// An order on the wire.
pub open spec fn order_bytes(order: Order) -> Seq<u8> {
    seq![type_byte(order.type_)] + id_bytes(order.id) + seq![side_byte(order.side)] + price_bytes(
        order.price,
    ) + quantity_bytes(order.initial_quantity) + quantity_bytes(order.remaining_quantity)
        + quantity_bytes(order.minimum_quantity) + quantity_bytes(
        order.virtual_remaining_quantity,
    )
}

/// An update on the wire.
pub open spec fn encoded(update: MarketDataUpdate) -> Seq<u8> {
    match update {
        MarketDataUpdate::Trade(trade) => seq![0u8] + (trade_info_bytes(trade.bid)
            + trade_info_bytes(trade.ask)),
        MarketDataUpdate::Cancellation(cancelled) => seq![1u8] + (seq![
            kind_byte(cancelled.cancel_request_type),
        ] + order_bytes(cancelled.order)),
    }
}

/// The update that the bytes stand for, if they stand for one.
pub open spec fn decoded(bytes: Seq<u8>) -> Option<MarketDataUpdate> {
    if exists|update: MarketDataUpdate| encoded(update) == bytes {
        Some(choose|update: MarketDataUpdate| encoded(update) == bytes)
    } else {
        None
    }
}

/// Reversing twice gives the bytes back.
proof fn lemma_reversed_twice(bytes: Seq<u8>)
    ensures
        reversed(reversed(bytes)) == bytes,
{
    assert(reversed(reversed(bytes)) =~= bytes);
}

/// Different identifiers are written differently, and in sixteen bytes.
proof fn lemma_id_bytes(a: OrderId, b: OrderId)
    ensures
        id_bytes(a).len() == 16,
        id_bytes(a) == id_bytes(b) ==> a == b,
{
    lemma_auto_spec_u128_to_from_le_bytes();
    lemma_reversed_twice(spec_u128_to_le_bytes(a));
    lemma_reversed_twice(spec_u128_to_le_bytes(b));
}

/// Different quantities are written differently, and in eight bytes.
proof fn lemma_quantity_bytes(a: Quantity, b: Quantity)
    ensures
        quantity_bytes(a).len() == 8,
        quantity_bytes(a) == quantity_bytes(b) ==> a == b,
{
    lemma_auto_spec_u64_to_from_le_bytes();
}

/// Different prices are written differently, and in eight bytes.
proof fn lemma_price_bytes(a: Price, b: Price)
    ensures
        price_bytes(a).len() == 8,
        price_bytes(a) == price_bytes(b) ==> a == b,
{
    lemma_auto_spec_u64_to_from_le_bytes();
    assert((a as u64) == (b as u64) ==> a == b) by (bit_vector);
}

/// Where the fields of one half of a trade stand in its bytes.
proof fn lemma_trade_info_layout(info: TradeInfo)
    ensures
        trade_info_bytes(info).len() == 32,
        trade_info_bytes(info).subrange(0, 16) == id_bytes(info.order_id),
        trade_info_bytes(info).subrange(16, 24) == price_bytes(info.price),
        trade_info_bytes(info).subrange(24, 32) == quantity_bytes(info.quantity),
{
    lemma_id_bytes(info.order_id, info.order_id);
    lemma_price_bytes(info.price, info.price);
    lemma_quantity_bytes(info.quantity, info.quantity);
    let bytes = trade_info_bytes(info);
    assert(bytes.subrange(0, 16) =~= id_bytes(info.order_id));
    assert(bytes.subrange(16, 24) =~= price_bytes(info.price));
    assert(bytes.subrange(24, 32) =~= quantity_bytes(info.quantity));
}

/// Where the fields of an order stand in its bytes.
proof fn lemma_order_layout(order: Order)
    ensures
        order_bytes(order).len() == 58,
        order_bytes(order)[0] == type_byte(order.type_),
        order_bytes(order).subrange(1, 17) == id_bytes(order.id),
        order_bytes(order)[17] == side_byte(order.side),
        order_bytes(order).subrange(18, 26) == price_bytes(order.price),
        order_bytes(order).subrange(26, 34) == quantity_bytes(order.initial_quantity),
        order_bytes(order).subrange(34, 42) == quantity_bytes(order.remaining_quantity),
        order_bytes(order).subrange(42, 50) == quantity_bytes(order.minimum_quantity),
        order_bytes(order).subrange(50, 58) == quantity_bytes(order.virtual_remaining_quantity),
{
    lemma_id_bytes(order.id, order.id);
    lemma_price_bytes(order.price, order.price);
    lemma_quantity_bytes(order.initial_quantity, order.initial_quantity);
    lemma_quantity_bytes(order.remaining_quantity, order.remaining_quantity);
    lemma_quantity_bytes(order.minimum_quantity, order.minimum_quantity);
    lemma_quantity_bytes(order.virtual_remaining_quantity, order.virtual_remaining_quantity);
    let bytes = order_bytes(order);
    assert(bytes.subrange(1, 17) =~= id_bytes(order.id));
    assert(bytes.subrange(18, 26) =~= price_bytes(order.price));
    assert(bytes.subrange(26, 34) =~= quantity_bytes(order.initial_quantity));
    assert(bytes.subrange(34, 42) =~= quantity_bytes(order.remaining_quantity));
    assert(bytes.subrange(42, 50) =~= quantity_bytes(order.minimum_quantity));
    assert(bytes.subrange(50, 58) =~= quantity_bytes(order.virtual_remaining_quantity));
}

/// Different halves of a trade are written differently.
proof fn lemma_trade_info_distinct(a: TradeInfo, b: TradeInfo)
    ensures
        trade_info_bytes(a) == trade_info_bytes(b) ==> a == b,
{
    lemma_trade_info_layout(a);
    lemma_trade_info_layout(b);
    lemma_id_bytes(a.order_id, b.order_id);
    lemma_price_bytes(a.price, b.price);
    lemma_quantity_bytes(a.quantity, b.quantity);
}

/// Different orders are written differently.
proof fn lemma_order_distinct(a: Order, b: Order)
    ensures
        order_bytes(a) == order_bytes(b) ==> a == b,
{
    lemma_order_layout(a);
    lemma_order_layout(b);
    lemma_id_bytes(a.id, b.id);
    lemma_price_bytes(a.price, b.price);
    lemma_quantity_bytes(a.initial_quantity, b.initial_quantity);
    lemma_quantity_bytes(a.remaining_quantity, b.remaining_quantity);
    lemma_quantity_bytes(a.minimum_quantity, b.minimum_quantity);
    lemma_quantity_bytes(a.virtual_remaining_quantity, b.virtual_remaining_quantity);
}

/// The shape of an update on the wire: a trade takes 65 bytes and begins
/// with 0, a cancellation takes 60 bytes and begins with 1, and the bytes
/// that stand for a kind, a type or a side are 0 or 1.
pub proof fn lemma_encoded_shape(update: MarketDataUpdate)
    ensures
        match update {
            MarketDataUpdate::Trade(trade) => {
                &&& encoded(update).len() == 65
                &&& encoded(update)[0] == 0
                &&& encoded(update).subrange(1, 33) == trade_info_bytes(trade.bid)
                &&& encoded(update).subrange(33, 65) == trade_info_bytes(trade.ask)
            },
            MarketDataUpdate::Cancellation(cancelled) => {
                &&& encoded(update).len() == 60
                &&& encoded(update)[0] == 1
                &&& encoded(update)[1] == kind_byte(cancelled.cancel_request_type)
                &&& encoded(update)[1] <= 1
                &&& encoded(update)[2] <= 1
                &&& encoded(update)[19] <= 1
                &&& encoded(update).subrange(2, 60) == order_bytes(cancelled.order)
            },
        },
{
    match update {
        MarketDataUpdate::Trade(trade) => {
            lemma_trade_info_layout(trade.bid);
            lemma_trade_info_layout(trade.ask);
            assert(encoded(update).subrange(1, 33) =~= trade_info_bytes(trade.bid));
            assert(encoded(update).subrange(33, 65) =~= trade_info_bytes(trade.ask));
        },
        MarketDataUpdate::Cancellation(cancelled) => {
            lemma_order_layout(cancelled.order);
            assert(encoded(update).subrange(2, 60) =~= order_bytes(cancelled.order));
            assert(encoded(update)[2] == order_bytes(cancelled.order)[0]);
            assert(encoded(update)[19] == order_bytes(cancelled.order)[17]);
        },
    }
}

/// No two updates are written alike.
pub proof fn lemma_encoding_distinct(a: MarketDataUpdate, b: MarketDataUpdate)
    ensures
        encoded(a) == encoded(b) ==> a == b,
{
    lemma_encoded_shape(a);
    lemma_encoded_shape(b);
    match (a, b) {
        (MarketDataUpdate::Trade(first), MarketDataUpdate::Trade(second)) => {
            lemma_trade_info_distinct(first.bid, second.bid);
            lemma_trade_info_distinct(first.ask, second.ask);
        },
        (MarketDataUpdate::Cancellation(first), MarketDataUpdate::Cancellation(second)) => {
            lemma_order_distinct(first.order, second.order);
        },
        _ => {},
    }
}

/// Round trip. Reading what was written gives the update back, and what is
/// read from bytes is written as these very bytes.
pub proof fn law_round_trip(update: MarketDataUpdate, bytes: Seq<u8>)
    ensures
        decoded(encoded(update)) == Some(update),
        decoded(bytes) matches Some(read) ==> encoded(read) == bytes,
{
    let back = choose|any: MarketDataUpdate| encoded(any) == encoded(update);
    lemma_encoding_distinct(back, update);
}

/// Appends the eight bytes of `value`, least significant first.
fn put_u64(out: &mut Vec<u8>, value: u64)
    ensures
        final(out)@ == old(out)@ + spec_u64_to_le_bytes(value),
{
    let mut bytes = u64_to_le_bytes(value);
    out.append(&mut bytes);
}

/// Appends the sixteen bytes of `id`, most significant first.
fn put_id(out: &mut Vec<u8>, id: OrderId)
    ensures
        final(out)@ == old(out)@ + id_bytes(id),
{
    let bytes = u128_to_le_bytes(id);
    let mut k: usize = 16;
    while k > 0
        invariant
            k <= 16,
            bytes@.len() == 16,
            out@ == old(out)@ + reversed(bytes@).take(16 - k),
        decreases k,
    {
        k -= 1;
        out.push(bytes[k]);
        assert(out@ =~= old(out)@ + reversed(bytes@).take(16 - k));
    }
    assert(reversed(bytes@).take(16) =~= reversed(bytes@));
}

/// Appends one half of a trade.
fn put_trade_info(out: &mut Vec<u8>, info: &TradeInfo)
    ensures
        final(out)@ == old(out)@ + trade_info_bytes(*info),
{
    put_id(out, info.order_id);
    put_u64(
        out,
        #[verifier::truncate]
        (info.price as u64),
    );
    put_u64(out, info.quantity);
    assert(out@ =~= old(out)@ + trade_info_bytes(*info));
}

/// Writes an update as it goes on the wire.
pub fn encode(update: &MarketDataUpdate) -> (bytes: Vec<u8>)
    ensures
        bytes@ == encoded(*update),
{
    let mut out: Vec<u8> = Vec::new();
    match update {
        MarketDataUpdate::Trade(trade) => {
            out.push(0);
            put_trade_info(&mut out, &trade.bid);
            put_trade_info(&mut out, &trade.ask);
            assert(out@ =~= encoded(*update));
        },
        MarketDataUpdate::Cancellation(cancelled) => {
            out.push(1);
            out.push(
                match cancelled.cancel_request_type {
                    CancelRequestType::Internal => 0,
                    CancelRequestType::External => 1,
                },
            );
            out.push(
                match cancelled.order.type_ {
                    OrderType::Normal => 0,
                    OrderType::Kill => 1,
                },
            );
            put_id(&mut out, cancelled.order.id);
            out.push(
                match cancelled.order.side {
                    OrderSide::Buy => 0,
                    OrderSide::Sell => 1,
                },
            );
            put_u64(
                &mut out,
                #[verifier::truncate]
                (cancelled.order.price as u64),
            );
            put_u64(&mut out, cancelled.order.initial_quantity);
            put_u64(&mut out, cancelled.order.remaining_quantity);
            put_u64(&mut out, cancelled.order.minimum_quantity);
            put_u64(&mut out, cancelled.order.virtual_remaining_quantity);
            assert(out@ =~= encoded(*update));
        },
    }
    out
}

/// Reads the quantity whose eight bytes stand at `at`.
fn take_quantity(bytes: &[u8], at: usize) -> (quantity: Quantity)
    requires
        at + 8 <= bytes@.len(),
    ensures
        quantity_bytes(quantity) == bytes@.subrange(at as int, at + 8),
{
    proof {
        lemma_auto_spec_u64_to_from_le_bytes();
    }
    let total = bytes.len();
    assert(at + 8 <= total);
    u64_from_le_bytes(slice_subrange(bytes, at, at + 8))
}

/// Reads the price whose eight bytes stand at `at`.
fn take_price(bytes: &[u8], at: usize) -> (price: Price)
    requires
        at + 8 <= bytes@.len(),
    ensures
        price_bytes(price) == bytes@.subrange(at as int, at + 8),
{
    proof {
        lemma_auto_spec_u64_to_from_le_bytes();
    }
    let total = bytes.len();
    assert(at + 8 <= total);
    let raw = u64_from_le_bytes(slice_subrange(bytes, at, at + 8));
    assert((raw as i64) as u64 == raw) by (bit_vector);
    #[verifier::truncate]
    (raw as i64)
}

/// Reads the identifier whose sixteen bytes stand at `at`.
fn take_id(bytes: &[u8], at: usize) -> (id: OrderId)
    requires
        at + 16 <= bytes@.len(),
    ensures
        id_bytes(id) == bytes@.subrange(at as int, at + 16),
{
    let total = bytes.len();
    let mut least_first: Vec<u8> = Vec::new();
    let mut k: usize = 16;
    while k > 0
        invariant
            k <= 16,
            at + 16 <= bytes@.len(),
            total == bytes@.len(),
            least_first@.len() == 16 - k,
            forall|i: int| 0 <= i < 16 - k ==> least_first@[i] == bytes@[at + 15 - i],
        decreases k,
    {
        k -= 1;
        least_first.push(bytes[at + k]);
    }
    proof {
        lemma_auto_spec_u128_to_from_le_bytes();
    }
    let id = u128_from_le_bytes(least_first.as_slice());
    assert(id_bytes(id) =~= bytes@.subrange(at as int, at + 16));
    id
}

/// Reads one half of a trade, whose 32 bytes stand at `at`.
fn take_trade_info(bytes: &[u8], at: usize) -> (info: TradeInfo)
    requires
        at + 32 <= bytes@.len(),
    ensures
        trade_info_bytes(info) == bytes@.subrange(at as int, at + 32),
{
    let total = bytes.len();
    assert(at + 32 <= total);
    let order_id = take_id(bytes, at);
    let price = take_price(bytes, at + 16);
    let quantity = take_quantity(bytes, at + 24);
    let info = TradeInfo { order_id, price, quantity };
    proof {
        lemma_trade_info_layout(info);
        assert(trade_info_bytes(info) =~= bytes@.subrange(at as int, at + 32)) by {
            let part = bytes@.subrange(at as int, at + 32);
            assert(part =~= bytes@.subrange(at as int, at + 16) + bytes@.subrange(
                at + 16,
                at + 24,
            ) + bytes@.subrange(at + 24, at + 32));
        }
    }
    info
}

/// Reads an update from the bytes that stand for it. `None` where the
/// bytes stand for no update: where they are not of the length of a trade
/// or of a cancellation, as their first byte has it, or where a byte that
/// should tell a kind, a type or a side is neither 0 nor 1.
pub fn decode(bytes: &[u8]) -> (update: Option<MarketDataUpdate>)
    ensures
        update == decoded(bytes@),
{
    proof {
        assert forall|any: MarketDataUpdate| bytes@ == encoded(any) implies bytes@.len() >= 60
            && bytes@[0] <= 1 by {
            lemma_encoded_shape(any);
        }
    }
    if bytes.len() == 0 {
        return None;
    }
    let tag = bytes[0];
    if tag == 0 {
        if bytes.len() != 65 {
            proof {
                assert forall|any: MarketDataUpdate| bytes@ != encoded(any) by {
                    lemma_encoded_shape(any);
                }
            }
            return None;
        }
        let bid = take_trade_info(bytes, 1);
        let ask = take_trade_info(bytes, 33);
        let update = MarketDataUpdate::Trade(Trade { bid, ask });
        proof {
            assert(bytes@ =~= seq![0u8] + (bytes@.subrange(1, 33) + bytes@.subrange(33, 65)));
            assert(encoded(update) == bytes@);
            lemma_encoding_distinct(
                choose|any: MarketDataUpdate| encoded(any) == bytes@,
                update,
            );
        }
        Some(update)
    } else if tag == 1 {
        if bytes.len() != 60 || bytes[1] > 1 || bytes[2] > 1 || bytes[19] > 1 {
            proof {
                assert forall|any: MarketDataUpdate| bytes@ != encoded(any) by {
                    lemma_encoded_shape(any);
                }
            }
            return None;
        }
        let cancel_request_type = if bytes[1] == 0 {
            CancelRequestType::Internal
        } else {
            CancelRequestType::External
        };
        let type_ = if bytes[2] == 0 {
            OrderType::Normal
        } else {
            OrderType::Kill
        };
        let id = take_id(bytes, 3);
        let side = if bytes[19] == 0 {
            OrderSide::Buy
        } else {
            OrderSide::Sell
        };
        let price = take_price(bytes, 20);
        let initial_quantity = take_quantity(bytes, 28);
        let remaining_quantity = take_quantity(bytes, 36);
        let minimum_quantity = take_quantity(bytes, 44);
        let virtual_remaining_quantity = take_quantity(bytes, 52);
        let order = Order {
            type_,
            id,
            side,
            price,
            initial_quantity,
            remaining_quantity,
            minimum_quantity,
            virtual_remaining_quantity,
        };
        let update = MarketDataUpdate::Cancellation(CancelledOrder { cancel_request_type, order });
        proof {
            assert(order_bytes(order) =~= bytes@.subrange(2, 60)) by {
                assert(bytes@.subrange(2, 60) =~= seq![bytes@[2]] + bytes@.subrange(3, 19) + seq![
                    bytes@[19],
                ] + bytes@.subrange(20, 28) + bytes@.subrange(28, 36) + bytes@.subrange(36, 44)
                    + bytes@.subrange(44, 52) + bytes@.subrange(52, 60));
            }
            assert(bytes@ =~= seq![1u8] + (seq![bytes@[1]] + bytes@.subrange(2, 60)));
            assert(encoded(update) == bytes@);
            lemma_encoding_distinct(
                choose|any: MarketDataUpdate| encoded(any) == bytes@,
                update,
            );
        }
        Some(update)
    } else {
        None
    }
}

} // verus!
