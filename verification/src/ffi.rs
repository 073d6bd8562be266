//! Plain-data mirrors of orders and fills for C consumers, with the
//! conversions between them and the core types.
//!
//! Enumerations are encoded as small integers: side `0` = bid, anything
//! else = ask; order type `1` = market, `2` = stop-limit, anything else =
//! limit; time in force `1` = IOC, `2` = FOK, `3` = GTD, anything else =
//! GTC. The stop price and expiry fields are used only by the variants that
//! carry them.

use vstd::prelude::*;

use crate::book_model::Fill;
use crate::order::{Order, OrderId, OrderType, Side, TimeInForce};

verus! {

/// C-compatible order.
#[derive(Debug, Clone, Copy, PartialEq, Eq, Structural)]
pub struct FfiOrder {
    pub id: u64,
    /// 0 = Bid, 1 = Ask
    pub side: u8,
    /// 0 = Limit, 1 = Market, 2 = StopLimit
    pub order_type: u8,
    /// Only used when `order_type == 2` (StopLimit)
    pub stop_price: i64,
    pub price: i64,
    pub quantity: u64,
    pub filled_quantity: u64,
    pub timestamp_ns: u64,
    /// 0 = GTC, 1 = IOC, 2 = FOK, 3 = GTD
    pub tif: u8,
    /// Only used when `tif == 3` (GTD)
    pub expiry_ns: u64,
}

/// C-compatible fill record.
#[derive(Debug, Clone, Copy, PartialEq, Eq, Structural)]
pub struct FfiFill {
    pub maker_id: u64,
    pub taker_id: u64,
    pub price: i64,
    pub quantity: u64,
    pub timestamp_ns: u64,
}

/// C-compatible position.
#[derive(Debug, Clone, Copy, PartialEq, Eq, Structural)]
pub struct FfiPosition {
    pub symbol_hash: u64,
    pub net_quantity: i64,
    pub avg_entry_price: i64,
    pub realized_pnl: i64,
    pub unrealized_pnl: i64,
    pub trade_count: u64,
}

/// C-compatible depth level.
#[derive(Debug, Clone, Copy, PartialEq, Eq, Structural)]
pub struct FfiDepthLevel {
    pub price: i64,
    pub quantity: u64,
}

/// The order an `FfiOrder` encodes.
pub open spec fn decode_order(o: FfiOrder) -> Order {
    Order {
        id: OrderId(o.id),
        side: if o.side == 0 {
            Side::Bid
        } else {
            Side::Ask
        },
        order_type: if o.order_type == 1 {
            OrderType::Market
        } else if o.order_type == 2 {
            OrderType::StopLimit { stop_price: o.stop_price }
        } else {
            OrderType::Limit
        },
        price: o.price,
        quantity: o.quantity,
        filled_quantity: o.filled_quantity,
        timestamp_ns: o.timestamp_ns,
        time_in_force: if o.tif == 1 {
            TimeInForce::IOC
        } else if o.tif == 2 {
            TimeInForce::FOK
        } else if o.tif == 3 {
            TimeInForce::GTD { expiry_ns: o.expiry_ns }
        } else {
            TimeInForce::GTC
        },
    }
}

/// The canonical `FfiOrder` of an order; unused fields are zero.
pub open spec fn encode_order(o: Order) -> FfiOrder {
    FfiOrder {
        id: o.id.0,
        side: match o.side {
            Side::Bid => 0,
            Side::Ask => 1,
        },
        order_type: match o.order_type {
            OrderType::Limit => 0,
            OrderType::Market => 1,
            OrderType::StopLimit { .. } => 2,
        },
        stop_price: match o.order_type {
            OrderType::StopLimit { stop_price } => stop_price,
            _ => 0,
        },
        price: o.price,
        quantity: o.quantity,
        filled_quantity: o.filled_quantity,
        timestamp_ns: o.timestamp_ns,
        tif: match o.time_in_force {
            TimeInForce::GTC => 0,
            TimeInForce::IOC => 1,
            TimeInForce::FOK => 2,
            TimeInForce::GTD { .. } => 3,
        },
        expiry_ns: match o.time_in_force {
            TimeInForce::GTD { expiry_ns } => expiry_ns,
            _ => 0,
        },
    }
}

/// An `FfiOrder` in canonical form: codes in range, unused fields zero.
pub open spec fn canonical_ffi_order(o: FfiOrder) -> bool {
    &&& o.side <= 1
    &&& o.order_type <= 2
    &&& o.tif <= 3
    &&& o.order_type != 2 ==> o.stop_price == 0
    &&& o.tif != 3 ==> o.expiry_ns == 0
}

/// Decode an `FfiOrder`.
pub fn ffi_to_order(o: &FfiOrder) -> (r: Order)
    ensures
        r == decode_order(*o),
{
    let side = if o.side == 0 {
        Side::Bid
    } else {
        Side::Ask
    };
    let order_type = match o.order_type {
        1 => OrderType::Market,
        2 => OrderType::StopLimit { stop_price: o.stop_price },
        _ => OrderType::Limit,
    };
    let time_in_force = match o.tif {
        1 => TimeInForce::IOC,
        2 => TimeInForce::FOK,
        3 => TimeInForce::GTD { expiry_ns: o.expiry_ns },
        _ => TimeInForce::GTC,
    };
    Order {
        id: OrderId(o.id),
        side,
        order_type,
        price: o.price,
        quantity: o.quantity,
        filled_quantity: o.filled_quantity,
        timestamp_ns: o.timestamp_ns,
        time_in_force,
    }
}

/// Encode an order as an `FfiOrder`.
pub fn order_to_ffi(o: &Order) -> (r: FfiOrder)
    ensures
        r == encode_order(*o),
{
    let (order_type, stop_price): (u8, i64) = match o.order_type {
        OrderType::Limit => (0, 0),
        OrderType::Market => (1, 0),
        OrderType::StopLimit { stop_price } => (2, stop_price),
    };
    let (tif, expiry_ns): (u8, u64) = match o.time_in_force {
        TimeInForce::GTC => (0, 0),
        TimeInForce::IOC => (1, 0),
        TimeInForce::FOK => (2, 0),
        TimeInForce::GTD { expiry_ns } => (3, expiry_ns),
    };
    FfiOrder {
        id: o.id.0,
        side: match o.side {
            Side::Bid => 0,
            Side::Ask => 1,
        },
        order_type,
        stop_price,
        price: o.price,
        quantity: o.quantity,
        filled_quantity: o.filled_quantity,
        timestamp_ns: o.timestamp_ns,
        tif,
        expiry_ns,
    }
}

/// The plain form of a fill.
pub open spec fn encode_fill(f: Fill) -> FfiFill {
    FfiFill {
        maker_id: f.maker_id.0,
        taker_id: f.taker_id.0,
        price: f.price,
        quantity: f.quantity,
        timestamp_ns: f.timestamp_ns,
    }
}

/// The fill a plain form stands for.
pub open spec fn decode_fill(f: FfiFill) -> Fill {
    Fill {
        maker_id: OrderId(f.maker_id),
        taker_id: OrderId(f.taker_id),
        price: f.price,
        quantity: f.quantity,
        timestamp_ns: f.timestamp_ns,
    }
}

/// Encode a fill.
pub fn fill_to_ffi(f: &Fill) -> (r: FfiFill)
    ensures
        r == encode_fill(*f),
{
    FfiFill {
        maker_id: f.maker_id.0,
        taker_id: f.taker_id.0,
        price: f.price,
        quantity: f.quantity,
        timestamp_ns: f.timestamp_ns,
    }
}

/// Decode a fill.
pub fn ffi_to_fill(f: &FfiFill) -> (r: Fill)
    ensures
        r == decode_fill(*f),
{
    Fill {
        maker_id: OrderId(f.maker_id),
        taker_id: OrderId(f.taker_id),
        price: f.price,
        quantity: f.quantity,
        timestamp_ns: f.timestamp_ns,
    }
}

/// Encoding then decoding gives back every order.
pub proof fn law_order_roundtrip(o: Order)
    ensures
        decode_order(encode_order(o)) == o,
{
}

/// Decoding then encoding gives back every canonical `FfiOrder`.
pub proof fn law_ffi_order_roundtrip(f: FfiOrder)
    requires
        canonical_ffi_order(f),
    ensures
        encode_order(decode_order(f)) == f,
{
}

/// A fill and its plain form convert into each other without loss.
pub proof fn law_fill_roundtrip(f: Fill, p: FfiFill)
    ensures
        decode_fill(encode_fill(f)) == f,
        encode_fill(decode_fill(p)) == p,
{
}

/// The integer codes mean what the C ABI documents. Decoding: side `0` is
/// a bid and any other a ask; order type `1` is market, `2` stop-limit with
/// the record's stop price, any other limit; time in force `1` is IOC, `2`
/// FOK, `3` GTD with the record's expiry, any other GTC. Encoding writes
/// exactly those codes for each variant.
pub proof fn law_ffi_codes(f: FfiOrder, o: Order)
    ensures
        (decode_order(f).side == Side::Bid) <==> f.side == 0,
        f.order_type == 1 ==> decode_order(f).order_type == OrderType::Market,
        f.order_type == 2 ==> decode_order(f).order_type == (OrderType::StopLimit {
            stop_price: f.stop_price,
        }),
        f.order_type != 1 && f.order_type != 2 ==> decode_order(f).order_type == OrderType::Limit,
        f.tif == 1 ==> decode_order(f).time_in_force == TimeInForce::IOC,
        f.tif == 2 ==> decode_order(f).time_in_force == TimeInForce::FOK,
        f.tif == 3 ==> decode_order(f).time_in_force == (TimeInForce::GTD { expiry_ns: f.expiry_ns }),
        f.tif != 1 && f.tif != 2 && f.tif != 3 ==> decode_order(f).time_in_force
            == TimeInForce::GTC,
        (encode_order(o).side == 0) <==> o.side == Side::Bid,
        (encode_order(o).side == 1) <==> o.side == Side::Ask,
        (encode_order(o).order_type == 0) <==> o.order_type is Limit,
        (encode_order(o).order_type == 1) <==> o.order_type is Market,
        (encode_order(o).order_type == 2) <==> o.order_type is StopLimit,
        (encode_order(o).tif == 0) <==> o.time_in_force is GTC,
        (encode_order(o).tif == 1) <==> o.time_in_force is IOC,
        (encode_order(o).tif == 2) <==> o.time_in_force is FOK,
        (encode_order(o).tif == 3) <==> o.time_in_force is GTD,
{
}

} // verus!
