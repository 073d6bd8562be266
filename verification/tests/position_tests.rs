use alice_ledger::book::Fill;
use alice_ledger::order::{OrderId, Side};
use alice_ledger::position::PositionTracker;


fn fill(price: i64, qty: u64) -> Fill {
    Fill {
        maker_id: OrderId(0),
        taker_id: OrderId(1),
        price,
        quantity: qty,
        timestamp_ns: 0,
    }
}

const SYM: u64 = 0xDEAD_BEEF;

// --- opening and adding to a long ---

#[test]
fn open_long_position() {
    let mut tracker = PositionTracker::new();
    tracker.apply_fill(SYM, &fill(1000, 10), Side::Bid);

    let pos = tracker.get(SYM).unwrap();
    assert_eq!(pos.net_quantity, 10);
    assert_eq!(pos.avg_entry_price, 1000);
    assert_eq!(pos.realized_pnl, 0);
    assert_eq!(pos.trade_count, 1);
}

#[test]
fn add_to_long_updates_average_entry() {
    let mut tracker = PositionTracker::new();
    tracker.apply_fill(SYM, &fill(1000, 10), Side::Bid);
    tracker.apply_fill(SYM, &fill(1010, 10), Side::Bid);

    let pos = tracker.get(SYM).unwrap();
    assert_eq!(pos.net_quantity, 20);
    // Weighted average: (10*1000 + 10*1010) / 20 = 1005
    assert_eq!(pos.avg_entry_price, 1005);
    assert_eq!(pos.trade_count, 2);
}

// --- partial close of a long ---

#[test]
fn partial_close_long_realizes_pnl() {
    let mut tracker = PositionTracker::new();
    tracker.apply_fill(SYM, &fill(1000, 10), Side::Bid); // long 10 @ 1000
    tracker.apply_fill(SYM, &fill(1010, 5), Side::Ask); // sell 5 @ 1010

    let pos = tracker.get(SYM).unwrap();
    assert_eq!(pos.net_quantity, 5); // 5 lots remain long
    assert_eq!(pos.avg_entry_price, 1000); // unchanged for remaining lots
    assert_eq!(pos.realized_pnl, 50); // 5 * (1010 - 1000)
}

// --- full close of a long ---

#[test]
fn full_close_long_flattens_position() {
    let mut tracker = PositionTracker::new();
    tracker.apply_fill(SYM, &fill(1000, 10), Side::Bid);
    tracker.apply_fill(SYM, &fill(1020, 10), Side::Ask);

    let pos = tracker.get(SYM).unwrap();
    assert_eq!(pos.net_quantity, 0);
    assert_eq!(pos.avg_entry_price, 0);
    assert_eq!(pos.realized_pnl, 200); // 10 * (1020 - 1000)
    assert_eq!(pos.unrealized_pnl, 0);
}

// --- short position ---

#[test]
fn open_short_position() {
    let mut tracker = PositionTracker::new();
    tracker.apply_fill(SYM, &fill(1000, 10), Side::Ask);

    let pos = tracker.get(SYM).unwrap();
    assert_eq!(pos.net_quantity, -10);
    assert_eq!(pos.avg_entry_price, 1000);
    assert_eq!(pos.realized_pnl, 0);
}

#[test]
fn close_short_with_profit() {
    let mut tracker = PositionTracker::new();
    tracker.apply_fill(SYM, &fill(1000, 10), Side::Ask); // short 10 @ 1000
    tracker.apply_fill(SYM, &fill(990, 10), Side::Bid); // cover @ 990

    let pos = tracker.get(SYM).unwrap();
    assert_eq!(pos.net_quantity, 0);
    // Profit: 10 * (1000 - 990) = 100
    assert_eq!(pos.realized_pnl, 100);
}

// --- position flip ---

#[test]
fn flip_long_to_short() {
    let mut tracker = PositionTracker::new();
    tracker.apply_fill(SYM, &fill(1000, 10), Side::Bid); // long 10
    tracker.apply_fill(SYM, &fill(1005, 15), Side::Ask); // sell 15

    let pos = tracker.get(SYM).unwrap();
    // After closing 10 longs (realized 5*10=50) and opening 5 shorts.
    assert_eq!(pos.net_quantity, -5);
    assert_eq!(pos.avg_entry_price, 1005); // new short entered at 1005
    assert_eq!(pos.realized_pnl, 50);
}

// --- mark to market ---

#[test]
fn mark_to_market_long_profit() {
    let mut tracker = PositionTracker::new();
    tracker.apply_fill(SYM, &fill(1000, 10), Side::Bid);
    tracker.mark_to_market(SYM, 1010);

    let pos = tracker.get(SYM).unwrap();
    assert_eq!(pos.unrealized_pnl, 100); // 10 * (1010 - 1000)
}

#[test]
fn mark_to_market_long_loss() {
    let mut tracker = PositionTracker::new();
    tracker.apply_fill(SYM, &fill(1000, 10), Side::Bid);
    tracker.mark_to_market(SYM, 990);

    let pos = tracker.get(SYM).unwrap();
    assert_eq!(pos.unrealized_pnl, -100); // 10 * (990 - 1000)
}

#[test]
fn mark_to_market_short_profit() {
    let mut tracker = PositionTracker::new();
    tracker.apply_fill(SYM, &fill(1000, 10), Side::Ask);
    tracker.mark_to_market(SYM, 980);

    let pos = tracker.get(SYM).unwrap();
    // -10 * (980 - 1000) = -10 * -20 = 200
    assert_eq!(pos.unrealized_pnl, 200);
}

#[test]
fn mark_to_market_flat_is_zero() {
    let mut tracker = PositionTracker::new();
    tracker.apply_fill(SYM, &fill(1000, 10), Side::Bid);
    tracker.apply_fill(SYM, &fill(1010, 10), Side::Ask);
    tracker.mark_to_market(SYM, 1020);

    let pos = tracker.get(SYM).unwrap();
    assert_eq!(pos.unrealized_pnl, 0);
}

// --- missing symbol ---

#[test]
fn get_unknown_symbol_returns_none() {
    let tracker = PositionTracker::new();
    assert!(tracker.get(0xCAFE_BABE).is_none());
}

// --- property-based tests ---
