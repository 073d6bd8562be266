use alice_ledger::book::OrderBook;
use alice_ledger::order::{Order, OrderId, OrderType, Side, TimeInForce};
use alice_ledger::post_only::{cancel_all, cancel_all_side, check_post_only, PostOnlyResult};


fn make_limit(id: u64, side: Side, price: i64, qty: u64) -> Order {
    Order {
        id: OrderId(id),
        side,
        order_type: OrderType::Limit,
        price,
        quantity: qty,
        filled_quantity: 0,
        timestamp_ns: 0,
        time_in_force: TimeInForce::GTC,
    }
}

fn make_market(id: u64, side: Side, qty: u64) -> Order {
    Order {
        id: OrderId(id),
        side,
        order_type: OrderType::Market,
        price: 0,
        quantity: qty,
        filled_quantity: 0,
        timestamp_ns: 0,
        time_in_force: TimeInForce::IOC,
    }
}

#[test]
fn post_only_bid_below_ask_passes() {
    let mut book = OrderBook::new();
    book.insert(make_limit(1, Side::Ask, 100, 10));
    let bid = make_limit(2, Side::Bid, 99, 5);
    assert_eq!(check_post_only(&bid, &book), PostOnlyResult::WouldRest);
}

#[test]
fn post_only_bid_at_ask_rejected() {
    let mut book = OrderBook::new();
    book.insert(make_limit(1, Side::Ask, 100, 10));
    let bid = make_limit(2, Side::Bid, 100, 5);
    assert_eq!(check_post_only(&bid, &book), PostOnlyResult::WouldMatch);
}

#[test]
fn post_only_bid_above_ask_rejected() {
    let mut book = OrderBook::new();
    book.insert(make_limit(1, Side::Ask, 100, 10));
    let bid = make_limit(2, Side::Bid, 105, 5);
    assert_eq!(check_post_only(&bid, &book), PostOnlyResult::WouldMatch);
}

#[test]
fn post_only_ask_above_bid_passes() {
    let mut book = OrderBook::new();
    book.insert(make_limit(1, Side::Bid, 100, 10));
    let ask = make_limit(2, Side::Ask, 101, 5);
    assert_eq!(check_post_only(&ask, &book), PostOnlyResult::WouldRest);
}

#[test]
fn post_only_ask_at_bid_rejected() {
    let mut book = OrderBook::new();
    book.insert(make_limit(1, Side::Bid, 100, 10));
    let ask = make_limit(2, Side::Ask, 100, 5);
    assert_eq!(check_post_only(&ask, &book), PostOnlyResult::WouldMatch);
}

#[test]
fn post_only_empty_book_passes() {
    let book = OrderBook::new();
    let bid = make_limit(1, Side::Bid, 100, 10);
    assert_eq!(check_post_only(&bid, &book), PostOnlyResult::WouldRest);
}

#[test]
fn post_only_market_invalid() {
    let book = OrderBook::new();
    let m = make_market(1, Side::Bid, 10);
    assert_eq!(check_post_only(&m, &book), PostOnlyResult::InvalidOrderType);
}

#[test]
fn cancel_all_side_empty_book() {
    let mut book = OrderBook::new();
    let r = cancel_all_side(&mut book, Side::Bid);
    assert_eq!(r.count, 0);
    assert!(r.cancelled_ids.is_empty());
}

#[test]
fn cancel_all_side_removes_bids() {
    let mut book = OrderBook::new();
    book.insert(make_limit(1, Side::Bid, 100, 10));
    book.insert(make_limit(2, Side::Bid, 99, 5));
    book.insert(make_limit(3, Side::Ask, 110, 8));
    let r = cancel_all_side(&mut book, Side::Bid);
    assert_eq!(r.count, 2);
    // ask は残っている
    assert!(book.best_ask().is_some());
}

#[test]
fn cancel_all_both_sides() {
    let mut book = OrderBook::new();
    book.insert(make_limit(1, Side::Bid, 100, 10));
    book.insert(make_limit(2, Side::Ask, 110, 5));
    let r = cancel_all(&mut book);
    assert_eq!(r.count, 2);
    assert!(book.best_bid().is_none());
    assert!(book.best_ask().is_none());
}

#[test]
fn post_only_result_eq() {
    assert_eq!(PostOnlyResult::WouldRest, PostOnlyResult::WouldRest);
    assert_ne!(PostOnlyResult::WouldRest, PostOnlyResult::WouldMatch);
}
