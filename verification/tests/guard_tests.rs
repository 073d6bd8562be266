use alice_ledger::book::{Fill, OrderBook};
use alice_ledger::order::{Order, OrderId, OrderType, Side, TimeInForce};
use alice_ledger::position::PositionTracker;

fn order(id: u64, side: Side, price: i64, qty: u64, tif: TimeInForce) -> Order {
    Order {
        id: OrderId(id),
        side,
        order_type: OrderType::Limit,
        price,
        quantity: qty,
        filled_quantity: 0,
        timestamp_ns: id,
        time_in_force: tif,
    }
}

#[test]
fn can_insert_refuses_fok_liquidity_beyond_u64() {
    let mut book = OrderBook::new();
    book.insert(order(1, Side::Ask, 100, u64::MAX, TimeInForce::GTC));
    book.insert(order(2, Side::Ask, 101, 1, TimeInForce::GTC));
    let fok = order(3, Side::Bid, 101, 5, TimeInForce::FOK);
    assert!(!book.can_insert(&fok, 0));
    let fok_near = order(4, Side::Bid, 100, 5, TimeInForce::FOK);
    assert!(book.can_insert(&fok_near, 0));
}

#[test]
fn can_insert_refuses_a_level_total_beyond_u64() {
    let mut book = OrderBook::new();
    book.insert(order(1, Side::Bid, 90, u64::MAX, TimeInForce::GTC));
    assert!(!book.can_insert(&order(2, Side::Bid, 90, 1, TimeInForce::GTC), 0));
    assert!(book.can_insert(&order(3, Side::Bid, 89, 1, TimeInForce::GTC), 0));
    assert!(book.can_insert(&order(4, Side::Bid, 90, 1, TimeInForce::IOC), 0));
    let expired = order(5, Side::Bid, 90, 1, TimeInForce::GTD { expiry_ns: 7 });
    assert!(book.can_insert(&expired, 7));
    assert!(!book.can_insert(&expired, 6));
}

#[test]
fn can_apply_fill_refuses_a_position_beyond_i64() {
    let mut t = PositionTracker::new();
    let big = Fill {
        maker_id: OrderId(1),
        taker_id: OrderId(2),
        price: 10,
        quantity: i64::MAX as u64,
        timestamp_ns: 0,
    };
    assert!(t.can_apply_fill(3, &big, Side::Bid));
    t.apply_fill(3, &big, Side::Bid);
    let one = Fill { quantity: 1, ..big.clone() };
    assert!(!t.can_apply_fill(3, &one, Side::Bid));
    assert!(t.can_apply_fill(3, &one, Side::Ask));
}
