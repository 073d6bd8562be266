use alice_ledger::book::{Fill, OrderBook};
use alice_ledger::bulk::{BulkRejectReason, BulkValidator};
use alice_ledger::ffi::{ffi_to_fill, ffi_to_order, fill_to_ffi, order_to_ffi};
use alice_ledger::order::{Order, OrderId, OrderType, Side, TimeInForce};
use alice_ledger::position::PositionTracker;
use alice_ledger::post_only::{cancel_all_side, check_post_only, PostOnlyResult};
use alice_ledger::risk::{reject_text, RiskCheckResult, RiskLimits, RiskManager, RiskRejectReason};
use alice_ledger::signed_order::{AuditEventKind, OrderAuditLog};

fn order(id: u64, side: Side, price: i64, qty: u64, ts: u64, tif: TimeInForce) -> Order {
    Order {
        id: OrderId(id),
        side,
        order_type: OrderType::Limit,
        price,
        quantity: qty,
        filled_quantity: 0,
        timestamp_ns: ts,
        time_in_force: tif,
    }
}

fn gtc(id: u64, side: Side, price: i64, qty: u64) -> Order {
    order(id, side, price, qty, id, TimeInForce::GTC)
}

fn total_qty(fills: &[Fill]) -> u64 {
    fills.iter().map(|f| f.quantity).sum()
}

#[test]
fn executed_quantity_is_min_of_remaining_and_crossing_liquidity() {
    let mut book = OrderBook::new();
    book.insert(gtc(1, Side::Ask, 100, 5));
    book.insert(gtc(2, Side::Ask, 101, 3));
    book.insert(gtc(3, Side::Ask, 105, 9));
    // Liquidity within 101 is 8; the bid wants 7.
    let fills = book.insert(order(4, Side::Bid, 101, 7, 10, TimeInForce::IOC));
    assert_eq!(total_qty(&fills), 7);
    assert_eq!(book.depth(Side::Ask, 5), vec![(101, 1), (105, 9)]);
    // Liquidity within 101 is now 1; the bid wants 4 and executes 1.
    let fills = book.insert(order(5, Side::Bid, 101, 4, 11, TimeInForce::IOC));
    assert_eq!(total_qty(&fills), 1);
    assert_eq!(book.depth(Side::Ask, 5), vec![(105, 9)]);
}

#[test]
fn fill_or_kill_executes_completely_or_not_at_all() {
    let mut book = OrderBook::new();
    book.insert(gtc(1, Side::Ask, 100, 5));
    book.insert(gtc(2, Side::Ask, 101, 3));
    let fills = book.insert(order(3, Side::Bid, 101, 9, 5, TimeInForce::FOK));
    assert!(fills.is_empty());
    assert_eq!(book.depth(Side::Ask, 5), vec![(100, 5), (101, 3)]);
    let fills = book.insert(order(4, Side::Bid, 101, 8, 6, TimeInForce::FOK));
    assert_eq!(total_qty(&fills), 8);
    assert_eq!(book.best_ask(), None);
}

#[test]
fn fills_follow_price_time_priority_at_maker_prices() {
    let mut book = OrderBook::new();
    book.insert(gtc(1, Side::Ask, 101, 2));
    book.insert(gtc(2, Side::Ask, 100, 2));
    book.insert(gtc(3, Side::Ask, 100, 2));
    let fills = book.insert(order(9, Side::Bid, 105, 5, 20, TimeInForce::IOC));
    let makers: Vec<(u64, i64, u64)> =
        fills.iter().map(|f| (f.maker_id.0, f.price, f.quantity)).collect();
    assert_eq!(makers, vec![(2, 100, 2), (3, 100, 2), (1, 101, 1)]);
    assert!(fills.iter().all(|f| f.taker_id == OrderId(9) && f.timestamp_ns == 20));
}

#[test]
fn non_resting_orders_leave_their_side_unchanged() {
    let mut book = OrderBook::new();
    book.insert(gtc(1, Side::Bid, 90, 4));
    book.insert(gtc(2, Side::Ask, 100, 1));
    book.insert(order(3, Side::Bid, 100, 5, 3, TimeInForce::IOC));
    book.insert(order(4, Side::Bid, 95, 5, 4, TimeInForce::FOK));
    assert_eq!(book.depth(Side::Bid, 5), vec![(90, 4)]);
}

#[test]
fn post_only_would_rest_means_no_fills() {
    let mut book = OrderBook::new();
    book.insert(gtc(1, Side::Ask, 100, 5));
    let passive = gtc(2, Side::Bid, 99, 5);
    assert_eq!(check_post_only(&passive, &book), PostOnlyResult::WouldRest);
    assert!(book.insert(passive).is_empty());
    let aggressive = gtc(3, Side::Bid, 100, 1);
    assert_eq!(check_post_only(&aggressive, &book), PostOnlyResult::WouldMatch);
}

#[test]
fn cancel_undoes_a_resting_insert() {
    let mut book = OrderBook::new();
    book.insert(gtc(1, Side::Bid, 90, 4));
    book.insert(gtc(2, Side::Ask, 100, 1));
    let before_bids = book.depth(Side::Bid, 10);
    let before_asks = book.depth(Side::Ask, 10);
    let o = gtc(3, Side::Bid, 95, 7);
    assert!(book.insert(o.clone()).is_empty());
    let back = book.cancel(OrderId(3)).unwrap();
    assert_eq!((back.id, back.price, back.quantity), (o.id, o.price, o.quantity));
    assert_eq!(book.depth(Side::Bid, 10), before_bids);
    assert_eq!(book.depth(Side::Ask, 10), before_asks);
    assert!(book.cancel(OrderId(3)).is_none());
}

#[test]
fn purge_removes_exactly_the_expired_orders() {
    let mut book = OrderBook::new();
    book.insert(order(1, Side::Bid, 90, 1, 0, TimeInForce::GTD { expiry_ns: 10 }));
    book.insert(order(2, Side::Bid, 90, 2, 1, TimeInForce::GTD { expiry_ns: 20 }));
    book.insert(order(3, Side::Ask, 110, 3, 2, TimeInForce::GTD { expiry_ns: 15 }));
    book.insert(gtc(4, Side::Ask, 111, 4));
    let mut gone: Vec<u64> = book.purge_expired(15).iter().map(|o| o.id.0).collect();
    gone.sort();
    assert_eq!(gone, vec![1, 3]);
    assert_eq!(book.depth(Side::Bid, 5), vec![(90, 2)]);
    assert_eq!(book.depth(Side::Ask, 5), vec![(111, 4)]);
    assert!(book.purge_expired(15).is_empty());
}

#[test]
fn cancel_all_side_empties_that_side_only() {
    let mut book = OrderBook::new();
    book.insert(gtc(1, Side::Bid, 90, 1));
    book.insert(gtc(2, Side::Bid, 89, 1));
    book.insert(gtc(3, Side::Ask, 110, 3));
    let r = cancel_all_side(&mut book, Side::Bid);
    assert_eq!(r.cancelled_ids, vec![OrderId(1), OrderId(2)]);
    assert_eq!(r.count, 2);
    assert_eq!(book.best_bid(), None);
    assert_eq!(book.depth(Side::Ask, 5), vec![(110, 3)]);
}

fn fill(price: i64, qty: u64) -> Fill {
    Fill {
        maker_id: OrderId(0),
        taker_id: OrderId(1),
        price,
        quantity: qty,
        timestamp_ns: 0,
    }
}

#[test]
fn open_then_close_realises_the_price_difference() {
    let mut t = PositionTracker::new();
    t.apply_fill(7, &fill(1_000, 3), Side::Bid);
    t.apply_fill(7, &fill(1_250, 3), Side::Ask);
    t.mark_to_market(7, 5_000);
    let p = t.get(7).unwrap();
    assert_eq!(p.net_quantity, 0);
    assert_eq!(p.avg_entry_price, 0);
    assert_eq!(p.realized_pnl, 750);
    assert_eq!(p.unrealized_pnl, 0);
}

#[test]
fn adding_in_one_direction_averages_entry_with_truncation() {
    let mut t = PositionTracker::new();
    t.apply_fill(7, &fill(-10, 1), Side::Ask);
    t.apply_fill(7, &fill(-11, 2), Side::Ask);
    let p = t.get(7).unwrap();
    assert_eq!(p.net_quantity, -3);
    // (-1 * -10 + -2 * -11) / -3 = 32 / -3, truncated toward zero.
    assert_eq!(p.avg_entry_price, -10);
    assert_eq!(p.realized_pnl, 0);
}

#[test]
fn risk_check_passes_exactly_within_limits() {
    let limits = RiskLimits {
        max_order_size: 10,
        min_order_size: 2,
        max_notional: 1_000,
        max_position: 15,
        max_orders_per_period: 2,
        enabled: true,
    };
    let mut rm = RiskManager::new(limits.clone());
    assert_eq!(rm.check_order(&gtc(1, Side::Bid, 100, 10), 5), RiskCheckResult::Passed);
    assert_eq!(
        rm.check_order(&gtc(1, Side::Bid, 100, 1), 0),
        RiskCheckResult::Rejected(RiskRejectReason::MinOrderSizeNotMet { requested: 1, minimum: 2 })
    );
    assert!(matches!(
        rm.check_order(&gtc(1, Side::Bid, 101, 10), 0),
        RiskCheckResult::Rejected(RiskRejectReason::MaxNotionalExceeded { .. })
    ));
    assert!(matches!(
        rm.check_order(&gtc(1, Side::Bid, 10, 10), 6),
        RiskCheckResult::Rejected(RiskRejectReason::PositionLimitExceeded { .. })
    ));
    rm.record_order();
    rm.record_order();
    assert!(matches!(
        rm.check_order(&gtc(1, Side::Bid, 10, 2), 0),
        RiskCheckResult::Rejected(RiskRejectReason::OrderRateLimitExceeded { .. })
    ));
    let off = RiskManager::new(RiskLimits { enabled: false, ..limits });
    assert_eq!(off.check_order(&gtc(1, Side::Bid, 1_000, 1_000), 0), RiskCheckResult::Passed);
}

#[test]
fn bulk_validation_partitions_the_batch_in_order() {
    let v = BulkValidator::new(true, 10);
    let rm = RiskManager::new(RiskLimits { max_order_size: 50, ..RiskLimits::default() });
    let orders = [
        gtc(1, Side::Bid, 100, 10),
        gtc(1, Side::Bid, 100, 10),
        gtc(2, Side::Bid, 100, 0),
        gtc(3, Side::Ask, 99, 5),
        gtc(4, Side::Bid, 100, 100),
        gtc(5, Side::Ask, 120, 5),
    ];
    let r = v.validate(&orders, &rm, 0);
    assert_eq!(r.accepted, vec![OrderId(1), OrderId(5)]);
    assert_eq!(r.accepted.len() + r.rejected.len(), orders.len());
    assert_eq!(r.rejected[0], (OrderId(1), BulkRejectReason::DuplicateId));
    assert_eq!(r.rejected[1], (OrderId(2), BulkRejectReason::ZeroQuantity));
    assert_eq!(r.rejected[2], (OrderId(3), BulkRejectReason::SelfTrade));
    assert_eq!(
        r.rejected[3],
        (
            OrderId(4),
            BulkRejectReason::RiskCheck(
                "MaxOrderSizeExceeded { requested: 100, limit: 50 }".to_string()
            )
        )
    );
}

#[test]
fn order_survives_the_plain_data_round_trip() {
    let o = order(42, Side::Ask, -7, 9, 123, TimeInForce::GTD { expiry_ns: 456 });
    let back = ffi_to_order(&order_to_ffi(&o));
    assert_eq!(back.id, o.id);
    assert_eq!(back.side, o.side);
    assert_eq!(back.price, o.price);
    assert_eq!(back.quantity, o.quantity);
    assert_eq!(back.timestamp_ns, o.timestamp_ns);
    assert_eq!(back.time_in_force, o.time_in_force);
    let f = Fill { maker_id: OrderId(1), taker_id: OrderId(2), price: 3, quantity: 4, timestamp_ns: 5 };
    assert_eq!(ffi_to_fill(&fill_to_ffi(&f)), f);
}

#[test]
fn audit_chain_verifies_with_its_heads_and_not_with_others() {
    let mut log = OrderAuditLog::new();
    let e1 = log.next_event(AuditEventKind::OrderAccepted, [1u8; 32], 10);
    assert_eq!(e1.sequence, 0);
    assert_eq!(e1.prev_hash, [0u8; 32]);
    assert_eq!(e1.canonical_bytes().len(), 81);
    log.push_event(e1, [7u8; 32]);
    let e2 = log.next_event(AuditEventKind::OrderCancelled, [2u8; 32], 11);
    assert_eq!(e2.sequence, 1);
    assert_eq!(e2.prev_hash, [7u8; 32]);
    log.push_event(e2, [8u8; 32]);
    assert_eq!(log.head(), [8u8; 32]);
    assert!(log.verify_with_heads(&[[7u8; 32], [8u8; 32]]));
    assert!(!log.verify_with_heads(&[[9u8; 32], [8u8; 32]]));
    assert!(!log.verify_with_heads(&[[7u8; 32], [9u8; 32]]));
}

#[test]
fn every_resting_order_stays_cancellable_after_matching() {
    let mut book = OrderBook::new();
    book.insert(gtc(1, Side::Ask, 100, 5));
    book.insert(gtc(2, Side::Ask, 100, 5));
    book.insert(gtc(3, Side::Ask, 101, 5));
    book.insert(gtc(4, Side::Bid, 99, 5));
    // Fills orders 1 and 2 completely, then rests what is left of order 5.
    let fills = book.insert(gtc(5, Side::Bid, 100, 12));
    assert_eq!(total_qty(&fills), 10);
    assert!(book.cancel(OrderId(1)).is_none());
    let two = book.cancel(OrderId(2));
    assert!(two.is_none());
    let three = book.cancel(OrderId(3)).unwrap();
    assert_eq!(three.filled_quantity, 0);
    let five = book.cancel(OrderId(5)).unwrap();
    assert_eq!((five.price, five.filled_quantity), (100, 10));
    assert!(book.cancel(OrderId(4)).is_some());
    assert_eq!(book.best_bid(), None);
    assert_eq!(book.best_ask(), None);
}

#[test]
fn reject_text_renders_reasons_as_their_debug_form() {
    let reasons = [
        RiskRejectReason::MaxOrderSizeExceeded { requested: 100, limit: 50 },
        RiskRejectReason::MaxNotionalExceeded { notional: i128::MIN, limit: 0 },
        RiskRejectReason::MaxNotionalExceeded { notional: -1_000_000, limit: 999 },
        RiskRejectReason::PositionLimitExceeded { projected: 60, limit: 50 },
        RiskRejectReason::PositionLimitExceeded { projected: i64::MIN, limit: u64::MAX },
        RiskRejectReason::OrderRateLimitExceeded { count: 10, limit: 10 },
        RiskRejectReason::MinOrderSizeNotMet { requested: 0, minimum: 7 },
    ];
    for r in reasons {
        assert_eq!(reject_text(&r), format!("{r:?}"));
    }
    assert_eq!(
        reject_text(&RiskRejectReason::PositionLimitExceeded { projected: 60, limit: 50 }),
        "PositionLimitExceeded { projected: 60, limit: 50 }"
    );
}

#[test]
fn cancel_undoes_insert_of_an_id_whose_order_has_filled() {
    let mut book = OrderBook::new();
    book.insert(gtc(1, Side::Ask, 100, 5));
    // Fills order 1 completely; order 2 is done as well.
    assert_eq!(total_qty(&book.insert(gtc(2, Side::Bid, 100, 5))), 5);
    book.insert(gtc(3, Side::Ask, 105, 2));
    assert_eq!(book.order_count(), 1);
    let before_bids = book.depth(Side::Bid, 10);
    let before_asks = book.depth(Side::Ask, 10);
    let o = gtc(1, Side::Bid, 99, 4);
    assert!(book.insert(o.clone()).is_empty());
    assert_eq!(book.order_count(), 2);
    let back = book.cancel(OrderId(1)).unwrap();
    assert_eq!((back.id, back.side, back.price, back.quantity), (o.id, o.side, o.price, o.quantity));
    assert_eq!(book.depth(Side::Bid, 10), before_bids);
    assert_eq!(book.depth(Side::Ask, 10), before_asks);
    assert_eq!(book.order_count(), 1);
}

#[test]
fn order_count_counts_resting_orders_not_lots() {
    let mut book = OrderBook::new();
    assert_eq!(book.order_count(), 0);
    book.insert(gtc(1, Side::Bid, 90, 10));
    book.insert(gtc(2, Side::Bid, 90, 20));
    book.insert(gtc(3, Side::Ask, 110, 30));
    assert_eq!(book.order_count(), 3);
    // A partial fill leaves the maker resting.
    book.insert(gtc(4, Side::Ask, 90, 15));
    assert_eq!(book.order_count(), 2);
    assert_eq!(book.depth(Side::Bid, 5), vec![(90, 15)]);
}

#[test]
fn can_validate_tells_when_a_running_position_would_overflow() {
    let v = BulkValidator::default();
    let rm = RiskManager::new(RiskLimits {
        max_order_size: u64::MAX,
        min_order_size: 0,
        max_notional: i128::MAX,
        max_position: u64::MAX,
        max_orders_per_period: u64::MAX,
        enabled: true,
    });
    assert!(v.can_validate(&[gtc(1, Side::Bid, 100, 10)], &rm, 0));
    assert!(!v.can_validate(&[gtc(1, Side::Bid, 100, 10)], &rm, i64::MAX));
    assert!(v.can_validate(&[gtc(1, Side::Ask, 100, 10)], &rm, i64::MAX));
    assert!(v.can_validate(&[gtc(1, Side::Bid, 100, 0)], &rm, i64::MAX));
    let r = v.validate(&[gtc(1, Side::Ask, 100, 10)], &rm, i64::MAX);
    assert_eq!(r.accepted, vec![OrderId(1)]);
}

#[test]
fn validate_runs_on_orders_rejected_before_the_position_is_projected() {
    let v = BulkValidator::default();
    let rm = RiskManager::with_defaults();
    let big = gtc(1, Side::Bid, 100, 2_000_000);
    assert!(rm.can_check_order(&big, i64::MAX));
    assert!(v.can_validate(&[big.clone()], &rm, i64::MAX));
    let r = v.validate(&[big], &rm, i64::MAX);
    assert!(r.accepted.is_empty());
    assert_eq!(r.rejected.len(), 1);
    assert_eq!(
        r.rejected[0].1,
        BulkRejectReason::RiskCheck(
            "MaxOrderSizeExceeded { requested: 2000000, limit: 1000000 }".to_string()
        )
    );
    let small = gtc(2, Side::Bid, 100, 10);
    assert!(!rm.can_check_order(&small, i64::MAX));
    assert!(!v.can_validate(&[small], &rm, i64::MAX));
}

#[test]
fn purging_twice_changes_nothing_even_with_an_unindexed_order() {
    let mut book = OrderBook::new();
    book.insert(order(1, Side::Bid, 90, 3, 0, TimeInForce::GTD { expiry_ns: 10 }));
    // Reusing id 1 on the other side takes over its index entry; filling
    // that order then drops the entry, so the bid rests unindexed.
    book.insert(gtc(1, Side::Ask, 110, 2));
    assert_eq!(total_qty(&book.insert(gtc(2, Side::Bid, 110, 2))), 2);
    assert_eq!(book.depth(Side::Bid, 5), vec![(90, 3)]);
    assert!(book.purge_expired(20).is_empty());
    let bids = book.depth(Side::Bid, 5);
    let asks = book.depth(Side::Ask, 5);
    assert!(book.purge_expired(20).is_empty());
    assert_eq!(book.depth(Side::Bid, 5), bids);
    assert_eq!(book.depth(Side::Ask, 5), asks);
    assert_eq!(book.all_order_ids_by_side(Side::Bid), vec![OrderId(1)]);
}
