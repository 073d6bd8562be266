use alice_ledger::book::{OrderBook, PriceLevel};
use alice_ledger::order::{Order, OrderId, OrderType, Side, TimeInForce};


fn limit(id: u64, side: Side, price: i64, qty: u64, ts: u64) -> Order {
    Order {
        id: OrderId(id),
        side,
        order_type: OrderType::Limit,
        price,
        quantity: qty,
        filled_quantity: 0,
        timestamp_ns: ts,
        time_in_force: TimeInForce::GTC,
    }
}

fn market(id: u64, side: Side, qty: u64) -> Order {
    Order {
        id: OrderId(id),
        side,
        order_type: OrderType::Market,
        price: 0, // ignored for market orders
        quantity: qty,
        filled_quantity: 0,
        timestamp_ns: 0,
        time_in_force: TimeInForce::IOC,
    }
}

// --- basic book state ---

#[test]
fn empty_book_has_no_best() {
    let book = OrderBook::new();
    assert!(book.best_bid().is_none());
    assert!(book.best_ask().is_none());
    assert!(book.spread().is_none());
}

#[test]
fn insert_resting_bids_and_asks() {
    let mut book = OrderBook::new();
    book.insert(limit(1, Side::Bid, 990, 10, 0));
    book.insert(limit(2, Side::Bid, 995, 5, 1));
    book.insert(limit(3, Side::Ask, 1000, 10, 2));
    book.insert(limit(4, Side::Ask, 1005, 5, 3));

    assert_eq!(book.best_bid(), Some(995));
    assert_eq!(book.best_ask(), Some(1000));
    assert_eq!(book.spread(), Some(5));
}

// --- market order matching ---

#[test]
fn market_buy_matches_lowest_ask() {
    let mut book = OrderBook::new();
    book.insert(limit(1, Side::Ask, 1000, 10, 0));
    book.insert(limit(2, Side::Ask, 1005, 10, 1));

    let fills = book.insert(market(3, Side::Bid, 10));
    assert_eq!(fills.len(), 1);
    assert_eq!(fills[0].price, 1000);
    assert_eq!(fills[0].quantity, 10);
    assert_eq!(fills[0].maker_id, OrderId(1));
}

#[test]
fn market_sell_matches_highest_bid() {
    let mut book = OrderBook::new();
    book.insert(limit(1, Side::Bid, 1000, 10, 0));
    book.insert(limit(2, Side::Bid, 990, 10, 1));

    let fills = book.insert(market(3, Side::Ask, 10));
    assert_eq!(fills.len(), 1);
    assert_eq!(fills[0].price, 1000);
    assert_eq!(fills[0].quantity, 10);
}

// --- partial fills ---

#[test]
fn partial_fill_leaves_remainder_on_book() {
    let mut book = OrderBook::new();
    // Resting ask of 20 lots; taker buys 8 lots.
    book.insert(limit(1, Side::Ask, 1000, 20, 0));
    let fills = book.insert(market(2, Side::Bid, 8));

    assert_eq!(fills.len(), 1);
    assert_eq!(fills[0].quantity, 8);
    // Remaining 12 lots should still be on the ask side.
    assert_eq!(book.best_ask(), Some(1000));
    let depth = book.depth(Side::Ask, 1);
    assert_eq!(depth[0].1, 12);
}

#[test]
fn large_market_order_sweeps_multiple_levels() {
    let mut book = OrderBook::new();
    book.insert(limit(1, Side::Ask, 1000, 5, 0));
    book.insert(limit(2, Side::Ask, 1001, 5, 1));
    book.insert(limit(3, Side::Ask, 1002, 5, 2));

    let fills = book.insert(market(4, Side::Bid, 15));
    assert_eq!(fills.len(), 3);
    assert_eq!(fills[0].price, 1000);
    assert_eq!(fills[1].price, 1001);
    assert_eq!(fills[2].price, 1002);
    assert!(book.best_ask().is_none());
}

// --- FIFO at same price level ---

#[test]
fn fifo_priority_at_same_price() {
    let mut book = OrderBook::new();
    // Three bids at the same price; different timestamps to distinguish them.
    book.insert(limit(1, Side::Ask, 1000, 5, 100)); // earliest
    book.insert(limit(2, Side::Ask, 1000, 5, 200));
    book.insert(limit(3, Side::Ask, 1000, 5, 300)); // latest

    // Buy 5 lots — should fill against order #1 (oldest).
    let fills = book.insert(market(4, Side::Bid, 5));
    assert_eq!(fills.len(), 1);
    assert_eq!(fills[0].maker_id, OrderId(1));

    // Buy another 5 — should fill against order #2.
    let fills = book.insert(market(5, Side::Bid, 5));
    assert_eq!(fills.len(), 1);
    assert_eq!(fills[0].maker_id, OrderId(2));
}

// --- cancellation ---

#[test]
fn cancel_resting_order() {
    let mut book = OrderBook::new();
    book.insert(limit(1, Side::Bid, 1000, 10, 0));
    let cancelled = book.cancel(OrderId(1));
    assert!(cancelled.is_some());
    assert!(book.best_bid().is_none());
}

#[test]
fn cancel_unknown_order_returns_none() {
    let mut book = OrderBook::new();
    assert!(book.cancel(OrderId(999)).is_none());
}

#[test]
fn cancel_one_of_multiple_at_same_level() {
    let mut book = OrderBook::new();
    book.insert(limit(1, Side::Ask, 1000, 10, 0));
    book.insert(limit(2, Side::Ask, 1000, 5, 1));
    book.cancel(OrderId(1));

    let depth = book.depth(Side::Ask, 1);
    assert_eq!(depth.len(), 1);
    assert_eq!(depth[0].1, 5); // only order #2 remains
}

// --- depth ---

#[test]
fn depth_returns_correct_levels() {
    let mut book = OrderBook::new();
    book.insert(limit(1, Side::Bid, 995, 10, 0));
    book.insert(limit(2, Side::Bid, 990, 20, 1));

    let depth = book.depth(Side::Bid, 2);
    assert_eq!(depth.len(), 2);
    assert_eq!(depth[0], (995, 10)); // best bid first
    assert_eq!(depth[1], (990, 20));
}

// --- FOK ---

#[test]
fn fok_cancels_when_insufficient_liquidity() {
    let mut book = OrderBook::new();
    book.insert(limit(1, Side::Ask, 1000, 5, 0)); // only 5 available

    let fok = Order {
        id: OrderId(2),
        side: Side::Bid,
        order_type: OrderType::Limit,
        price: 1000,
        quantity: 10, // wants 10
        filled_quantity: 0,
        timestamp_ns: 0,
        time_in_force: TimeInForce::FOK,
    };
    let fills = book.insert(fok);
    assert!(fills.is_empty()); // no partial fill allowed
}

#[test]
fn fok_fills_completely_when_sufficient_liquidity() {
    let mut book = OrderBook::new();
    book.insert(limit(1, Side::Ask, 1000, 15, 0));

    let fok = Order {
        id: OrderId(2),
        side: Side::Bid,
        order_type: OrderType::Limit,
        price: 1000,
        quantity: 10,
        filled_quantity: 0,
        timestamp_ns: 0,
        time_in_force: TimeInForce::FOK,
    };
    let fills = book.insert(fok);
    assert_eq!(fills.len(), 1);
    assert_eq!(fills[0].quantity, 10);
}

// --- IOC ---

#[test]
fn ioc_fills_partial_and_discards_remainder() {
    let mut book = OrderBook::new();
    book.insert(limit(1, Side::Ask, 1000, 5, 0)); // only 5 lots

    let ioc = Order {
        id: OrderId(2),
        side: Side::Bid,
        order_type: OrderType::Limit,
        price: 1000,
        quantity: 10, // wants 10
        filled_quantity: 0,
        timestamp_ns: 0,
        time_in_force: TimeInForce::IOC,
    };
    let fills = book.insert(ioc);
    // 5 lots filled, remainder discarded (not resting on book).
    assert_eq!(fills.len(), 1);
    assert_eq!(fills[0].quantity, 5);
    // The bid side should remain empty.
    assert!(book.best_bid().is_none());
}

// --- GTD ---

fn gtd(id: u64, side: Side, price: i64, qty: u64, ts: u64, expiry_ns: u64) -> Order {
    Order {
        id: OrderId(id),
        side,
        order_type: OrderType::Limit,
        price,
        quantity: qty,
        filled_quantity: 0,
        timestamp_ns: ts,
        time_in_force: TimeInForce::GTD { expiry_ns },
    }
}

#[test]
fn gtd_rests_on_book_when_not_yet_expired() {
    let mut book = OrderBook::new();
    // expiry = 1000, now = 500 → still valid
    let fills = book.insert_with_time(gtd(1, Side::Bid, 990, 10, 0, 1_000), 500);
    assert!(fills.is_empty());
    assert_eq!(book.best_bid(), Some(990));
}

#[test]
fn gtd_rejected_immediately_when_already_expired() {
    let mut book = OrderBook::new();
    // expiry = 500, now = 1000 → already expired
    let fills = book.insert_with_time(gtd(1, Side::Bid, 990, 10, 0, 500), 1_000);
    assert!(fills.is_empty());
    assert!(book.best_bid().is_none()); // must not have rested
}

#[test]
fn gtd_rejected_at_exact_expiry_boundary() {
    let mut book = OrderBook::new();
    // expiry == now → expired
    let fills = book.insert_with_time(gtd(1, Side::Ask, 1000, 5, 0, 1_000), 1_000);
    assert!(fills.is_empty());
    assert!(book.best_ask().is_none());
}

#[test]
fn purge_expired_removes_gtd_orders_past_expiry() {
    let mut book = OrderBook::new();
    // Two GTD orders on the bid side with different expiries.
    book.insert_with_time(gtd(1, Side::Bid, 990, 10, 0, 500), 0); // expires at 500 ns
    book.insert_with_time(gtd(2, Side::Bid, 995, 5, 1, 2_000), 0); // expires at 2000 ns
                                                                   // One GTC order that must survive.
    book.insert(limit(3, Side::Bid, 992, 3, 2));

    // At now = 1000 ns only order #1 (expiry=500) has expired.
    let expired = book.purge_expired(1_000);
    assert_eq!(expired.len(), 1);
    assert_eq!(expired[0].id, OrderId(1));

    // Best bid is now 995 (order #2), and the GTC at 992 is still present.
    assert_eq!(book.best_bid(), Some(995));
    let depth = book.depth(Side::Bid, 3);
    assert_eq!(depth.len(), 2); // 995 and 992
}

#[test]
fn purge_expired_removes_gtd_on_ask_side() {
    let mut book = OrderBook::new();
    book.insert_with_time(gtd(1, Side::Ask, 1000, 10, 0, 100), 0); // expires at 100 ns
    book.insert_with_time(gtd(2, Side::Ask, 1001, 5, 1, 5_000), 0); // expires at 5000 ns

    let expired = book.purge_expired(200);
    assert_eq!(expired.len(), 1);
    assert_eq!(expired[0].id, OrderId(1));
    assert_eq!(book.best_ask(), Some(1001));
}

#[test]
fn purge_expired_leaves_gtc_orders_untouched() {
    let mut book = OrderBook::new();
    book.insert(limit(1, Side::Ask, 1000, 10, 0)); // GTC — must survive any purge
    let expired = book.purge_expired(u64::MAX);
    assert!(expired.is_empty());
    assert_eq!(book.best_ask(), Some(1000));
}

#[test]
fn purge_expired_returns_empty_when_nothing_expired() {
    let mut book = OrderBook::new();
    // expiry = 2000, now = 1000 → still valid
    book.insert_with_time(gtd(1, Side::Bid, 990, 10, 0, 2_000), 0);
    let expired = book.purge_expired(1_000);
    assert!(expired.is_empty());
    assert_eq!(book.best_bid(), Some(990));
}

#[test]
fn gtd_order_fills_normally_before_expiry() {
    let mut book = OrderBook::new();
    // Resting GTD ask at 1000, expires far in the future.
    book.insert_with_time(gtd(1, Side::Ask, 1000, 10, 0, 9_999_999), 0);
    // Market bid hits it before expiry.
    let fills = book.insert_with_time(market(2, Side::Bid, 10), 500);
    assert_eq!(fills.len(), 1);
    assert_eq!(fills[0].price, 1000);
    assert_eq!(fills[0].quantity, 10);
}

// --- spread エッジケース ---

#[test]
fn spread_only_bids_returns_none() {
    let mut book = OrderBook::new();
    book.insert(limit(1, Side::Bid, 1000, 5, 0));
    assert!(book.spread().is_none());
}

#[test]
fn spread_only_asks_returns_none() {
    let mut book = OrderBook::new();
    book.insert(limit(1, Side::Ask, 1000, 5, 0));
    assert!(book.spread().is_none());
}

#[test]
fn spread_zero_when_bid_equals_ask() {
    // bid = ask → crossed book (spread = 0)。マーケットオーダーで消化されるため
    // 残留する場合はスプレッドが 0 になる
    let mut book = OrderBook::new();
    book.insert(limit(1, Side::Bid, 1000, 5, 0));
    // 同価格の ask を置いても bid と即時マッチするので book は片側になる
    book.insert(limit(2, Side::Ask, 1005, 5, 1));
    assert_eq!(book.spread(), Some(5));
}

// --- depth エッジケース ---

#[test]
fn depth_zero_levels_requested_returns_empty() {
    let mut book = OrderBook::new();
    book.insert(limit(1, Side::Bid, 1000, 5, 0));
    assert!(book.depth(Side::Bid, 0).is_empty());
}

#[test]
fn depth_empty_book_returns_empty() {
    let book = OrderBook::new();
    assert!(book.depth(Side::Bid, 5).is_empty());
    assert!(book.depth(Side::Ask, 5).is_empty());
}

#[test]
fn depth_limited_to_requested_levels() {
    let mut book = OrderBook::new();
    book.insert(limit(1, Side::Ask, 1000, 5, 0));
    book.insert(limit(2, Side::Ask, 1001, 5, 1));
    book.insert(limit(3, Side::Ask, 1002, 5, 2));
    // 3レベルあるが 2 だけ要求する
    let d = book.depth(Side::Ask, 2);
    assert_eq!(d.len(), 2);
    assert_eq!(d[0].0, 1000);
    assert_eq!(d[1].0, 1001);
}

#[test]
fn depth_ask_ascending_order() {
    let mut book = OrderBook::new();
    book.insert(limit(1, Side::Ask, 1002, 5, 0));
    book.insert(limit(2, Side::Ask, 1000, 5, 1));
    book.insert(limit(3, Side::Ask, 1001, 5, 2));
    let d = book.depth(Side::Ask, 3);
    assert_eq!(d[0].0, 1000);
    assert_eq!(d[1].0, 1001);
    assert_eq!(d[2].0, 1002);
}

#[test]
fn depth_bid_descending_order() {
    let mut book = OrderBook::new();
    book.insert(limit(1, Side::Bid, 998, 5, 0));
    book.insert(limit(2, Side::Bid, 1000, 5, 1));
    book.insert(limit(3, Side::Bid, 999, 5, 2));
    let d = book.depth(Side::Bid, 3);
    assert_eq!(d[0].0, 1000);
    assert_eq!(d[1].0, 999);
    assert_eq!(d[2].0, 998);
}

// --- cancel エッジケース ---

#[test]
fn cancel_ask_order() {
    let mut book = OrderBook::new();
    book.insert(limit(1, Side::Ask, 1000, 10, 0));
    let cancelled = book.cancel(OrderId(1));
    assert!(cancelled.is_some());
    assert!(book.best_ask().is_none());
}

#[test]
fn cancel_removes_level_when_empty() {
    let mut book = OrderBook::new();
    book.insert(limit(1, Side::Bid, 1000, 10, 0));
    book.cancel(OrderId(1));
    // レベルが空になったので best_bid は None
    assert!(book.best_bid().is_none());
    assert!(book.spread().is_none());
}

#[test]
fn cancel_after_partial_fill() {
    let mut book = OrderBook::new();
    // ask 20 lots → market buy 8 lots → cancel 残り 12
    book.insert(limit(1, Side::Ask, 1000, 20, 0));
    book.insert(market(2, Side::Bid, 8));
    let cancelled = book.cancel(OrderId(1));
    assert!(cancelled.is_some());
    // remaining = 20 - 8 = 12
    assert_eq!(cancelled.unwrap().remaining(), 12);
    assert!(book.best_ask().is_none());
}

#[test]
fn cancel_then_reinsert_same_id() {
    let mut book = OrderBook::new();
    book.insert(limit(1, Side::Bid, 1000, 10, 0));
    book.cancel(OrderId(1));
    // 同じ ID で再挿入
    book.insert(limit(1, Side::Bid, 1000, 5, 1));
    assert_eq!(book.best_bid(), Some(1000));
}

// --- market order に流動性がない場合 ---

#[test]
fn market_buy_on_empty_book_returns_no_fills() {
    let mut book = OrderBook::new();
    let fills = book.insert(market(1, Side::Bid, 10));
    assert!(fills.is_empty());
}

#[test]
fn market_sell_on_empty_book_returns_no_fills() {
    let mut book = OrderBook::new();
    let fills = book.insert(market(1, Side::Ask, 10));
    assert!(fills.is_empty());
}

// --- limit 注文が相手方を超えない価格の場合は約定しない ---

#[test]
fn limit_bid_below_ask_rests_on_book() {
    let mut book = OrderBook::new();
    book.insert(limit(1, Side::Ask, 1005, 10, 0));
    // bid 価格が ask より低い → 約定せず rest
    let fills = book.insert(limit(2, Side::Bid, 1000, 10, 1));
    assert!(fills.is_empty());
    assert_eq!(book.best_bid(), Some(1000));
    assert_eq!(book.best_ask(), Some(1005));
}

#[test]
fn limit_ask_above_bid_rests_on_book() {
    let mut book = OrderBook::new();
    book.insert(limit(1, Side::Bid, 995, 10, 0));
    // ask 価格が bid より高い → 約定せず rest
    let fills = book.insert(limit(2, Side::Ask, 1000, 10, 1));
    assert!(fills.is_empty());
    assert_eq!(book.best_ask(), Some(1000));
}

// --- IOC が完全に約定する場合 ---

#[test]
fn ioc_fills_completely_when_sufficient_liquidity() {
    let mut book = OrderBook::new();
    book.insert(limit(1, Side::Ask, 1000, 20, 0)); // 20 lots available

    let ioc = Order {
        id: OrderId(2),
        side: Side::Bid,
        order_type: OrderType::Limit,
        price: 1000,
        quantity: 10, // 10 lots required
        filled_quantity: 0,
        timestamp_ns: 0,
        time_in_force: TimeInForce::IOC,
    };
    let fills = book.insert(ioc);
    assert_eq!(fills.len(), 1);
    assert_eq!(fills[0].quantity, 10);
    // 残り 10 lots は book に残っていること
    let d = book.depth(Side::Ask, 1);
    assert_eq!(d[0].1, 10);
}

// --- FOK ask 側 ---

#[test]
fn fok_ask_cancels_when_insufficient_bid_liquidity() {
    let mut book = OrderBook::new();
    book.insert(limit(1, Side::Bid, 1000, 3, 0)); // 3 lots

    let fok = Order {
        id: OrderId(2),
        side: Side::Ask,
        order_type: OrderType::Limit,
        price: 1000,
        quantity: 10, // 10 必要
        filled_quantity: 0,
        timestamp_ns: 0,
        time_in_force: TimeInForce::FOK,
    };
    let fills = book.insert(fok);
    assert!(fills.is_empty());
    // 元の bid は無傷で残っていること
    assert_eq!(book.best_bid(), Some(1000));
}

#[test]
fn fok_ask_fills_when_sufficient_bid_liquidity() {
    let mut book = OrderBook::new();
    book.insert(limit(1, Side::Bid, 1000, 20, 0)); // 20 lots

    let fok = Order {
        id: OrderId(2),
        side: Side::Ask,
        order_type: OrderType::Limit,
        price: 1000,
        quantity: 10,
        filled_quantity: 0,
        timestamp_ns: 0,
        time_in_force: TimeInForce::FOK,
    };
    let fills = book.insert(fok);
    assert_eq!(fills.len(), 1);
    assert_eq!(fills[0].quantity, 10);
}

// --- market order が複数レベルを跨ぐ (ask 側) ---

#[test]
fn market_sell_sweeps_multiple_bid_levels() {
    let mut book = OrderBook::new();
    book.insert(limit(1, Side::Bid, 1000, 5, 0));
    book.insert(limit(2, Side::Bid, 999, 5, 1));
    book.insert(limit(3, Side::Bid, 998, 5, 2));

    let fills = book.insert(market(4, Side::Ask, 15));
    assert_eq!(fills.len(), 3);
    assert_eq!(fills[0].price, 1000);
    assert_eq!(fills[1].price, 999);
    assert_eq!(fills[2].price, 998);
    assert!(book.best_bid().is_none());
}

// --- purge_expired: 空の book では何も返さない ---

#[test]
fn purge_expired_on_empty_book_returns_empty() {
    let mut book = OrderBook::new();
    let expired = book.purge_expired(u64::MAX);
    assert!(expired.is_empty());
}

// --- purge_expired: 全 GTD が期限切れ ---

#[test]
fn purge_expired_removes_all_gtd_when_all_expired() {
    let mut book = OrderBook::new();
    book.insert_with_time(gtd(1, Side::Bid, 990, 5, 0, 100), 0);
    book.insert_with_time(gtd(2, Side::Ask, 1010, 5, 1, 200), 0);

    let expired = book.purge_expired(1000);
    assert_eq!(expired.len(), 2);
    assert!(book.best_bid().is_none());
    assert!(book.best_ask().is_none());
}

// --- OrderBook::default ---

#[test]
fn order_book_default_is_empty() {
    let book = OrderBook::default();
    assert!(book.best_bid().is_none());
    assert!(book.best_ask().is_none());
}

// --- PriceLevel ---

#[test]
fn price_level_new_is_empty() {
    let lvl = PriceLevel::new(1000);
    assert_eq!(lvl.price, 1000);
    assert_eq!(lvl.total_quantity, 0);
    assert!(lvl.is_empty());
}

#[test]
fn price_level_push_updates_total_quantity() {
    let mut lvl = PriceLevel::new(1000);
    let order = Order {
        id: OrderId(1),
        side: Side::Ask,
        order_type: OrderType::Limit,
        price: 1000,
        quantity: 15,
        filled_quantity: 5,
        timestamp_ns: 0,
        time_in_force: TimeInForce::GTC,
    };
    lvl.push(order);
    // remaining = 15 - 5 = 10
    assert_eq!(lvl.total_quantity, 10);
    assert!(!lvl.is_empty());
}

// --- StopLimit 注文が rest される ---

#[test]
fn stop_limit_order_rests_on_book() {
    let mut book = OrderBook::new();
    let sl = Order {
        id: OrderId(1),
        side: Side::Bid,
        order_type: OrderType::StopLimit { stop_price: 980 },
        price: 990,
        quantity: 10,
        filled_quantity: 0,
        timestamp_ns: 0,
        time_in_force: TimeInForce::GTC,
    };
    let fills = book.insert(sl);
    assert!(fills.is_empty());
    assert_eq!(book.best_bid(), Some(990));
}

// --- GTD insert_with_time: now_ns = 0 → 期限チェックをスキップ ---

#[test]
fn insert_with_time_zero_skips_expiry_check() {
    let mut book = OrderBook::new();
    // expiry_ns = 1 だが now_ns = 0 → チェックなしで rest する
    let fills = book.insert_with_time(gtd(1, Side::Bid, 990, 10, 0, 1), 0);
    assert!(fills.is_empty());
    assert_eq!(book.best_bid(), Some(990));
}

// --- property-based tests ---
