use alice_ledger::signed_order::{AuditEventKind, OrderAuditLog, OrderSide};

#[test]
fn empty_log_head_is_zero() {
    let log = OrderAuditLog::new();
    assert_eq!(log.head(), [0u8; 32]);
    assert!(log.verify_with_heads(&[]));
}

#[test]
fn side_tag_is_distinct() {
    assert_ne!(OrderSide::Buy.tag(), OrderSide::Sell.tag());
}

#[test]
fn kind_tag_is_distinct_across_variants() {
    let mut seen: std::collections::HashSet<u8> = std::collections::HashSet::new();
    for k in [
        AuditEventKind::OrderAccepted,
        AuditEventKind::OrderRejected,
        AuditEventKind::OrderPartiallyFilled,
        AuditEventKind::OrderFullyFilled,
        AuditEventKind::OrderCancelled,
        AuditEventKind::OrderExpired,
    ] {
        assert!(seen.insert(k.tag()));
    }
}
