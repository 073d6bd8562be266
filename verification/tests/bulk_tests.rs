use alice_ledger::bulk::{BulkRejectReason, BulkValidator};
use alice_ledger::order::{Order, OrderId, OrderType, Side, TimeInForce};
use alice_ledger::risk::{RiskLimits, RiskManager};


fn make_order(id: u64, side: Side, price: i64, qty: u64) -> Order {
    Order {
        id: OrderId(id),
        side,
        order_type: OrderType::Limit,
        price,
        quantity: qty,
        filled_quantity: 0,
        timestamp_ns: 0,
        time_in_force: TimeInForce::GTC,
    }
}

#[test]
fn empty_batch() {
    let v = BulkValidator::default();
    let rm = RiskManager::with_defaults();
    let r = v.validate(&[], &rm, 0);
    assert!(r.accepted.is_empty());
    assert!(r.rejected.is_empty());
}

#[test]
fn single_valid_order() {
    let v = BulkValidator::default();
    let rm = RiskManager::with_defaults();
    let orders = [make_order(1, Side::Bid, 100, 10)];
    let r = v.validate(&orders, &rm, 0);
    assert_eq!(r.accepted.len(), 1);
    assert!(r.rejected.is_empty());
}

#[test]
fn multiple_valid_orders() {
    let v = BulkValidator::default();
    let rm = RiskManager::with_defaults();
    let orders = [
        make_order(1, Side::Bid, 100, 10),
        make_order(2, Side::Bid, 99, 20),
        make_order(3, Side::Ask, 110, 5),
    ];
    let r = v.validate(&orders, &rm, 0);
    assert_eq!(r.accepted.len(), 3);
}

#[test]
fn duplicate_id_rejected() {
    let v = BulkValidator::default();
    let rm = RiskManager::with_defaults();
    let orders = [
        make_order(1, Side::Bid, 100, 10),
        make_order(1, Side::Ask, 110, 10), // 重複 ID
    ];
    let r = v.validate(&orders, &rm, 0);
    assert_eq!(r.accepted.len(), 1);
    assert_eq!(r.rejected.len(), 1);
    assert_eq!(r.rejected[0].1, BulkRejectReason::DuplicateId);
}

#[test]
fn zero_quantity_rejected() {
    let v = BulkValidator::default();
    let rm = RiskManager::with_defaults();
    let orders = [make_order(1, Side::Bid, 100, 0)];
    let r = v.validate(&orders, &rm, 0);
    assert_eq!(r.rejected.len(), 1);
    assert_eq!(r.rejected[0].1, BulkRejectReason::ZeroQuantity);
}

#[test]
fn self_trade_detected() {
    let v = BulkValidator::default();
    let rm = RiskManager::with_defaults();
    let orders = [
        make_order(1, Side::Bid, 105, 10),
        make_order(2, Side::Ask, 100, 10), // ask <= bid → self trade
    ];
    let r = v.validate(&orders, &rm, 0);
    assert_eq!(r.accepted.len(), 1);
    assert_eq!(r.rejected.len(), 1);
    assert_eq!(r.rejected[0].1, BulkRejectReason::SelfTrade);
}

#[test]
fn self_trade_prevention_disabled() {
    let v = BulkValidator::new(false, 1000);
    let rm = RiskManager::with_defaults();
    let orders = [
        make_order(1, Side::Bid, 105, 10),
        make_order(2, Side::Ask, 100, 10),
    ];
    let r = v.validate(&orders, &rm, 0);
    assert_eq!(r.accepted.len(), 2); // 自己約定チェックなし
}

#[test]
fn risk_check_rejection_in_batch() {
    let v = BulkValidator::default();
    let rm = RiskManager::new(RiskLimits {
        max_order_size: 50,
        ..RiskLimits::default()
    });
    let orders = [
        make_order(1, Side::Bid, 100, 30),
        make_order(2, Side::Bid, 100, 100), // 超過
    ];
    let r = v.validate(&orders, &rm, 0);
    assert_eq!(r.accepted.len(), 1);
    assert_eq!(r.rejected.len(), 1);
}

#[test]
fn cumulative_position_tracking() {
    let v = BulkValidator::default();
    let rm = RiskManager::new(RiskLimits {
        max_position: 50,
        ..RiskLimits::default()
    });
    let orders = [
        make_order(1, Side::Bid, 100, 30),
        make_order(2, Side::Bid, 99, 30), // 30+30=60 > 50
    ];
    let r = v.validate(&orders, &rm, 0);
    assert_eq!(r.accepted.len(), 1);
    assert_eq!(r.rejected.len(), 1);
}

#[test]
fn check_batch_size() {
    let v = BulkValidator::new(true, 5);
    assert!(v.check_batch_size(5));
    assert!(!v.check_batch_size(6));
}

#[test]
fn default_validator() {
    let v = BulkValidator::default();
    assert!(v.self_trade_prevention);
    assert_eq!(v.max_batch_size, 1000);
}

#[test]
fn reject_reason_eq() {
    assert_eq!(BulkRejectReason::DuplicateId, BulkRejectReason::DuplicateId);
    assert_ne!(
        BulkRejectReason::DuplicateId,
        BulkRejectReason::ZeroQuantity
    );
}
