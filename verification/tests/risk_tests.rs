use alice_ledger::order::{Order, OrderId, OrderType, Side, TimeInForce};
use alice_ledger::risk::{RiskCheckResult, RiskLimits, RiskManager, RiskRejectReason};


fn make_order(id: u64, side: Side, price: i64, qty: u64) -> Order {
    Order {
        id: OrderId(id),
        side,
        order_type: OrderType::Limit,
        price,
        quantity: qty,
        filled_quantity: 0,
        timestamp_ns: 0,
        time_in_force: TimeInForce::GTC,
    }
}

#[test]
fn default_limits() {
    let l = RiskLimits::default();
    assert_eq!(l.max_order_size, 1_000_000);
    assert!(l.enabled);
}

#[test]
fn check_passes_normal_order() {
    let rm = RiskManager::with_defaults();
    let o = make_order(1, Side::Bid, 100, 10);
    assert_eq!(rm.check_order(&o, 0), RiskCheckResult::Passed);
}

#[test]
fn check_rejects_oversized_order() {
    let rm = RiskManager::new(RiskLimits {
        max_order_size: 100,
        ..RiskLimits::default()
    });
    let o = make_order(1, Side::Bid, 100, 200);
    assert!(matches!(
        rm.check_order(&o, 0),
        RiskCheckResult::Rejected(RiskRejectReason::MaxOrderSizeExceeded { .. })
    ));
}

#[test]
fn check_rejects_undersized_order() {
    let rm = RiskManager::new(RiskLimits {
        min_order_size: 10,
        ..RiskLimits::default()
    });
    let o = make_order(1, Side::Bid, 100, 5);
    assert!(matches!(
        rm.check_order(&o, 0),
        RiskCheckResult::Rejected(RiskRejectReason::MinOrderSizeNotMet { .. })
    ));
}

#[test]
fn check_rejects_notional_exceeded() {
    let rm = RiskManager::new(RiskLimits {
        max_notional: 1000,
        ..RiskLimits::default()
    });
    let o = make_order(1, Side::Bid, 100, 20); // 2000 > 1000
    assert!(matches!(
        rm.check_order(&o, 0),
        RiskCheckResult::Rejected(RiskRejectReason::MaxNotionalExceeded { .. })
    ));
}

#[test]
fn check_rejects_position_limit_bid() {
    let rm = RiskManager::new(RiskLimits {
        max_position: 50,
        ..RiskLimits::default()
    });
    let o = make_order(1, Side::Bid, 100, 30);
    // 既存ポジション 30 + 注文 30 = 60 > 50
    assert!(matches!(
        rm.check_order(&o, 30),
        RiskCheckResult::Rejected(RiskRejectReason::PositionLimitExceeded { .. })
    ));
}

#[test]
fn check_rejects_position_limit_ask() {
    let rm = RiskManager::new(RiskLimits {
        max_position: 50,
        ..RiskLimits::default()
    });
    let o = make_order(1, Side::Ask, 100, 30);
    // 既存ポジション -30 - 30 = -60, |60| > 50
    assert!(matches!(
        rm.check_order(&o, -30),
        RiskCheckResult::Rejected(RiskRejectReason::PositionLimitExceeded { .. })
    ));
}

#[test]
fn check_rejects_rate_limit() {
    let mut rm = RiskManager::new(RiskLimits {
        max_orders_per_period: 2,
        ..RiskLimits::default()
    });
    rm.record_order();
    rm.record_order();
    let o = make_order(1, Side::Bid, 100, 1);
    assert!(matches!(
        rm.check_order(&o, 0),
        RiskCheckResult::Rejected(RiskRejectReason::OrderRateLimitExceeded { .. })
    ));
}

#[test]
fn reset_period_clears_count() {
    let mut rm = RiskManager::with_defaults();
    rm.record_order();
    rm.record_order();
    assert_eq!(rm.orders_in_period(), 2);
    rm.reset_period();
    assert_eq!(rm.orders_in_period(), 0);
}

#[test]
fn disabled_always_passes() {
    let rm = RiskManager::new(RiskLimits {
        max_order_size: 1,
        enabled: false,
        ..RiskLimits::default()
    });
    let o = make_order(1, Side::Bid, 100, 9999);
    assert_eq!(rm.check_order(&o, 0), RiskCheckResult::Passed);
}

#[test]
fn position_reducing_trade_passes() {
    let rm = RiskManager::new(RiskLimits {
        max_position: 50,
        ..RiskLimits::default()
    });
    // 既存ロング 40、売り注文 10 → projected = 30 < 50
    let o = make_order(1, Side::Ask, 100, 10);
    assert_eq!(rm.check_order(&o, 40), RiskCheckResult::Passed);
}

#[test]
fn risk_check_result_eq() {
    assert_eq!(RiskCheckResult::Passed, RiskCheckResult::Passed);
    assert_ne!(
        RiskCheckResult::Passed,
        RiskCheckResult::Rejected(RiskRejectReason::MaxOrderSizeExceeded {
            requested: 1,
            limit: 0,
        })
    );
}
