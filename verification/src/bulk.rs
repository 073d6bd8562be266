//! Batch order validation: duplicate identifiers, zero quantities,
//! self-trades within the batch and per-order risk checks with a running
//! position.

use std::collections::HashSet;

use vstd::prelude::*;

use crate::order::{Order, OrderId, Side};
use crate::risk::{
    projected_position, reason_text, reject_text, risk_check, risk_check_admissible,
    RiskCheckResult, RiskLimits, RiskManager, RiskRejectReason,
};

verus! {

broadcast use vstd::std_specs::hash::group_hash_axioms;

/// Outcome of validating a batch.
#[derive(Debug, Clone)]
pub struct BulkValidationResult {
    /// Identifiers of the accepted orders, in batch order.
    pub accepted: Vec<OrderId>,
    /// Identifiers of the rejected orders with the reason, in batch order.
    pub rejected: Vec<(OrderId, BulkRejectReason)>,
}

/// Why an order of a batch was rejected.
#[derive(Debug, Clone, PartialEq, Eq)]
pub enum BulkRejectReason {
    /// The risk check failed; the text is that of the reason (`reject_text`).
    RiskCheck(String),
    /// An earlier order of the batch has the same identifier.
    DuplicateId,
    /// The order has zero quantity.
    ZeroQuantity,
    /// The order would trade against an accepted order of the batch.
    SelfTrade,
}

/// Batch validator settings.
#[derive(Debug)]
pub struct BulkValidator {
    /// Reject orders that cross an earlier order of the batch.
    pub self_trade_prevention: bool,
    /// Largest accepted batch size.
    pub max_batch_size: usize,
}

/// Abstract rejection reason.
pub enum RejectKind {
    RiskCheck(RiskRejectReason),
    DuplicateId,
    ZeroQuantity,
    SelfTrade,
}

/// `r` is the concrete form of `k`.
pub open spec fn reason_matches(r: BulkRejectReason, k: RejectKind) -> bool {
    match (r, k) {
        (BulkRejectReason::RiskCheck(s), RejectKind::RiskCheck(x)) => s@ == reason_text(x),
        (BulkRejectReason::DuplicateId, RejectKind::DuplicateId) => true,
        (BulkRejectReason::ZeroQuantity, RejectKind::ZeroQuantity) => true,
        (BulkRejectReason::SelfTrade, RejectKind::SelfTrade) => true,
        _ => false,
    }
}

/// State of a batch validation after some prefix of the batch.
pub struct BulkState {
    /// Identifiers seen so far.
    pub seen: Set<u64>,
    /// Highest bid price that passed the self-trade check.
    pub best_bid: Option<i64>,
    /// Lowest ask price that passed the self-trade check.
    pub best_ask: Option<i64>,
    /// Running position including the accepted orders.
    pub position: i64,
    /// Accepted identifiers.
    pub accepted: Seq<OrderId>,
    /// Rejected identifiers with reasons.
    pub rejected: Seq<(OrderId, RejectKind)>,
}

/// Order `o` crosses a price seen earlier in the batch on the other side.
pub open spec fn self_trades(st: BulkState, o: Order) -> bool {
    match o.side {
        Side::Bid => st.best_ask is Some && o.price >= st.best_ask->0,
        Side::Ask => st.best_bid is Some && o.price <= st.best_bid->0,
    }
}

/// `st` with the best price of `o.side` updated by `o.price`.
pub open spec fn track_best(st: BulkState, o: Order) -> BulkState {
    match o.side {
        Side::Bid => BulkState {
            best_bid: Some(
                match st.best_bid {
                    Some(b) => if b >= o.price {
                        b
                    } else {
                        o.price
                    },
                    None => o.price,
                },
            ),
            ..st
        },
        Side::Ask => BulkState {
            best_ask: Some(
                match st.best_ask {
                    Some(a) => if a <= o.price {
                        a
                    } else {
                        o.price
                    },
                    None => o.price,
                },
            ),
            ..st
        },
    }
}

/// `o` gets past the duplicate, zero-quantity and self-trade checks and is
/// risk checked.
pub open spec fn reaches_risk_check(stp: bool, st: BulkState, o: Order) -> bool {
    &&& !st.seen.contains(o.id.0)
    &&& o.quantity != 0
    &&& !(stp && self_trades(st, o))
}

/// One order of a batch: duplicate check, zero-quantity check, self-trade
/// check (which also tracks the best prices), then the risk check at the
/// running position; an accepted order moves the running position.
pub open spec fn bulk_step(
    stp: bool,
    limits: RiskLimits,
    count: u64,
    st: BulkState,
    o: Order,
) -> BulkState {
    if st.seen.contains(o.id.0) {
        BulkState { rejected: st.rejected.push((o.id, RejectKind::DuplicateId)), ..st }
    } else {
        let st1 = BulkState { seen: st.seen.insert(o.id.0), ..st };
        if o.quantity == 0 {
            BulkState { rejected: st1.rejected.push((o.id, RejectKind::ZeroQuantity)), ..st1 }
        } else if stp && self_trades(st1, o) {
            BulkState { rejected: st1.rejected.push((o.id, RejectKind::SelfTrade)), ..st1 }
        } else {
            let st2 = if stp {
                track_best(st1, o)
            } else {
                st1
            };
            match risk_check(limits, count, o, st2.position) {
                RiskCheckResult::Passed => BulkState {
                    position: projected_position(o, st2.position) as i64,
                    accepted: st2.accepted.push(o.id),
                    ..st2
                },
                RiskCheckResult::Rejected(r) => BulkState {
                    rejected: st2.rejected.push((o.id, RejectKind::RiskCheck(r))),
                    ..st2
                },
            }
        }
    }
}

/// The state before any order of a batch.
pub open spec fn bulk_start(position: i64) -> BulkState {
    BulkState {
        seen: Set::empty(),
        best_bid: None,
        best_ask: None,
        position,
        accepted: seq![],
        rejected: seq![],
    }
}

/// The state after validating `orders` in turn.
pub open spec fn bulk_run(
    stp: bool,
    limits: RiskLimits,
    count: u64,
    position: i64,
    orders: Seq<Order>,
) -> BulkState
    decreases orders.len(),
{
    if orders.len() == 0 {
        bulk_start(position)
    } else {
        bulk_step(
            stp,
            limits,
            count,
            bulk_run(stp, limits, count, position, orders.drop_last()),
            orders.last(),
        )
    }
}

/// The risk check of `o` stays within `i64`, and so does the running
/// position when checks are disabled and every order passes.
pub open spec fn bulk_step_admissible(stp: bool, limits: RiskLimits, st: BulkState, o: Order) -> bool {
    reaches_risk_check(stp, st, o) ==> {
        let st1 = BulkState { seen: st.seen.insert(o.id.0), ..st };
        let pos = (if stp {
            track_best(st1, o)
        } else {
            st1
        }).position;
        &&& risk_check_admissible(limits, o, pos)
        &&& !limits.enabled ==> i64::MIN <= projected_position(o, pos) <= i64::MAX
    }
}

/// Every order of the batch is admissible at the state it is reached in.
pub open spec fn bulk_admissible(
    stp: bool,
    limits: RiskLimits,
    count: u64,
    position: i64,
    orders: Seq<Order>,
) -> bool {
    forall|i: int|
        0 <= i < orders.len() ==> bulk_step_admissible(
            stp,
            limits,
            bulk_run(stp, limits, count, position, #[trigger] orders.take(i)),
            orders[i],
        )
}

/// Every order of a batch is either accepted or rejected, exactly once and
/// in batch order; accepted identifiers are distinct and were all seen.
pub proof fn law_bulk_partition(
    stp: bool,
    limits: RiskLimits,
    count: u64,
    position: i64,
    orders: Seq<Order>,
)
    ensures
        ({
            let st = bulk_run(stp, limits, count, position, orders);
            &&& st.accepted.len() + st.rejected.len() == orders.len()
            &&& st.accepted.no_duplicates()
            &&& forall|i: int| 0 <= i < st.accepted.len() ==> st.seen.contains(#[trigger] st.accepted[i].0)
        }),
    decreases orders.len(),
{
    if orders.len() > 0 {
        law_bulk_partition(stp, limits, count, position, orders.drop_last());
        let st = bulk_run(stp, limits, count, position, orders.drop_last());
        let o = orders.last();
        let next = bulk_run(stp, limits, count, position, orders);
        assert(next == bulk_step(stp, limits, count, st, o));
        if !st.seen.contains(o.id.0) && next.accepted.len() > st.accepted.len() {
            assert(next.accepted == st.accepted.push(o.id));
            assert forall|i: int, j: int|
                0 <= i < next.accepted.len() && 0 <= j < next.accepted.len() && i != j implies next.accepted[i]
                != next.accepted[j] by {
                if i < st.accepted.len() && j < st.accepted.len() {
                } else if i < st.accepted.len() {
                    assert(st.seen.contains(st.accepted[i].0));
                } else if j < st.accepted.len() {
                    assert(st.seen.contains(st.accepted[j].0));
                }
            }
        }
    }
}

/// With self-trade prevention on, the order at `i` of `orders` gets past
/// the duplicate, zero-quantity and self-trade checks.
pub open spec fn clears_checks(
    limits: RiskLimits,
    count: u64,
    position: i64,
    orders: Seq<Order>,
    i: int,
) -> bool {
    reaches_risk_check(true, bulk_run(true, limits, count, position, orders.take(i)), orders[i])
}

/// Some order of `orders` on the other side of `o` that got past the
/// checks is priced to trade with `o`: a bid at or above an ask's price, or
/// an ask at or below a bid's price.
pub open spec fn crossed_by_earlier(
    limits: RiskLimits,
    count: u64,
    position: i64,
    orders: Seq<Order>,
    o: Order,
) -> bool {
    exists|i: int|
        0 <= i < orders.len() && #[trigger] clears_checks(limits, count, position, orders, i)
            && orders[i].side != o.side && match o.side {
            Side::Ask => orders[i].price >= o.price,
            Side::Bid => orders[i].price <= o.price,
        }
}

/// The identifiers seen after a batch are those of its orders.
proof fn lemma_seen_ids(stp: bool, limits: RiskLimits, count: u64, position: i64, orders: Seq<Order>)
    ensures
        forall|x: u64| #[trigger]
            bulk_run(stp, limits, count, position, orders).seen.contains(x) <==> exists|i: int|
                0 <= i < orders.len() && #[trigger] orders[i].id.0 == x,
    decreases orders.len(),
{
    if orders.len() > 0 {
        let prev = orders.drop_last();
        lemma_seen_ids(stp, limits, count, position, prev);
        let st = bulk_run(stp, limits, count, position, orders);
        assert forall|x: u64| #[trigger] st.seen.contains(x) <==> exists|i: int|
            0 <= i < orders.len() && #[trigger] orders[i].id.0 == x by {
            if exists|i: int| 0 <= i < orders.len() && #[trigger] orders[i].id.0 == x {
                let i = choose|i: int| 0 <= i < orders.len() && #[trigger] orders[i].id.0 == x;
                if i < prev.len() {
                    assert(prev[i].id.0 == x);
                }
            }
            if bulk_run(stp, limits, count, position, prev).seen.contains(x) {
                let i = choose|i: int| 0 <= i < prev.len() && #[trigger] prev[i].id.0 == x;
                assert(orders[i].id.0 == x);
            }
            if x == orders.last().id.0 {
                assert(orders[orders.len() - 1].id.0 == x);
            }
        }
    }
}

/// With self-trade prevention on, the best bid tracked after a batch is the
/// highest price of the bids that got past the checks, and the best ask the
/// lowest price of such asks; none when there is no such order.
pub proof fn lemma_best_prices(limits: RiskLimits, count: u64, position: i64, orders: Seq<Order>)
    ensures
        ({
            let st = bulk_run(true, limits, count, position, orders);
            &&& forall|i: int|
                0 <= i < orders.len() && #[trigger] clears_checks(limits, count, position, orders, i)
                    ==> match orders[i].side {
                    Side::Bid => st.best_bid is Some && orders[i].price <= st.best_bid->0,
                    Side::Ask => st.best_ask is Some && orders[i].price >= st.best_ask->0,
                }
            &&& st.best_bid is Some ==> exists|i: int|
                0 <= i < orders.len() && #[trigger] clears_checks(limits, count, position, orders, i)
                    && orders[i].side == Side::Bid && orders[i].price == st.best_bid->0
            &&& st.best_ask is Some ==> exists|i: int|
                0 <= i < orders.len() && #[trigger] clears_checks(limits, count, position, orders, i)
                    && orders[i].side == Side::Ask && orders[i].price == st.best_ask->0
        }),
    decreases orders.len(),
{
    if orders.len() > 0 {
        let n = orders.len() - 1;
        let prev = orders.drop_last();
        let o = orders.last();
        lemma_best_prices(limits, count, position, prev);
        let sp = bulk_run(true, limits, count, position, prev);
        let st = bulk_run(true, limits, count, position, orders);
        assert(orders.take(n) =~= prev);
        assert forall|i: int| 0 <= i < n implies clears_checks(limits, count, position, orders, i)
            == clears_checks(limits, count, position, prev, i) by {
            assert(orders.take(i) =~= prev.take(i));
            assert(orders[i] == prev[i]);
        }
        assert(orders[n] == o);
        let last_clears = clears_checks(limits, count, position, orders, n);
        assert(last_clears == reaches_risk_check(true, sp, o));
        if last_clears {
            let st1 = BulkState { seen: sp.seen.insert(o.id.0), ..sp };
            let st2 = track_best(st1, o);
            assert(st.best_bid == st2.best_bid && st.best_ask == st2.best_ask);
        } else {
            assert(st.best_bid == sp.best_bid && st.best_ask == sp.best_ask);
        }
        assert forall|i: int|
            0 <= i < orders.len() && #[trigger] clears_checks(limits, count, position, orders, i)
                implies match orders[i].side {
                Side::Bid => st.best_bid is Some && orders[i].price <= st.best_bid->0,
                Side::Ask => st.best_ask is Some && orders[i].price >= st.best_ask->0,
            } by {
            if i < n {
                assert(clears_checks(limits, count, position, prev, i));
                assert(prev[i] == orders[i]);
            }
        }
        if st.best_bid is Some {
            if last_clears && o.side == Side::Bid && o.price == st.best_bid->0 {
                assert(clears_checks(limits, count, position, orders, n));
            } else {
                let i = choose|i: int|
                    0 <= i < prev.len() && #[trigger] clears_checks(limits, count, position, prev, i)
                        && prev[i].side == Side::Bid && prev[i].price == sp.best_bid->0;
                assert(clears_checks(limits, count, position, orders, i));
            }
        }
        if st.best_ask is Some {
            if last_clears && o.side == Side::Ask && o.price == st.best_ask->0 {
                assert(clears_checks(limits, count, position, orders, n));
            } else {
                let i = choose|i: int|
                    0 <= i < prev.len() && #[trigger] clears_checks(limits, count, position, prev, i)
                        && prev[i].side == Side::Ask && prev[i].price == sp.best_ask->0;
                assert(clears_checks(limits, count, position, orders, i));
            }
        }
    }
}

/// With self-trade prevention on, a new order with a fresh identifier and a
/// non-zero quantity is rejected as a self-trade exactly when an earlier
/// order of the batch on the other side that got past the checks is priced
/// to trade with it: an ask against a bid at or above its price, a bid
/// against an ask at or below its price.
pub proof fn law_self_trade_rejects_crossing(
    limits: RiskLimits,
    count: u64,
    position: i64,
    orders: Seq<Order>,
    o: Order,
)
    requires
        forall|i: int| 0 <= i < orders.len() ==> (#[trigger] orders[i]).id != o.id,
        o.quantity != 0,
    ensures
        ({
            let st = bulk_run(true, limits, count, position, orders);
            let st2 = bulk_run(true, limits, count, position, orders.push(o));
            (st2.rejected == st.rejected.push((o.id, RejectKind::SelfTrade))) <==> crossed_by_earlier(
                limits,
                count,
                position,
                orders,
                o,
            )
        }),
{
    let st = bulk_run(true, limits, count, position, orders);
    let st2 = bulk_run(true, limits, count, position, orders.push(o));
    assert(orders.push(o).drop_last() =~= orders);
    assert(orders.push(o).last() == o);
    lemma_seen_ids(true, limits, count, position, orders);
    if st.seen.contains(o.id.0) {
        let i = choose|i: int| 0 <= i < orders.len() && #[trigger] orders[i].id.0 == o.id.0;
        assert(orders[i].id == o.id);
    }
    lemma_best_prices(limits, count, position, orders);
    let crossing = crossed_by_earlier(limits, count, position, orders, o);
    let st1 = BulkState { seen: st.seen.insert(o.id.0), ..st };
    assert(self_trades(st1, o) <==> crossing) by {
        if crossing {
            let i = choose|i: int|
                0 <= i < orders.len() && #[trigger] clears_checks(limits, count, position, orders, i)
                    && orders[i].side != o.side && match o.side {
                    Side::Ask => orders[i].price >= o.price,
                    Side::Bid => orders[i].price <= o.price,
                };
            assert(clears_checks(limits, count, position, orders, i));
        }
        if self_trades(st1, o) {
            match o.side {
                Side::Ask => {
                    let i = choose|i: int|
                        0 <= i < orders.len() && #[trigger] clears_checks(
                            limits,
                            count,
                            position,
                            orders,
                            i,
                        ) && orders[i].side == Side::Bid && orders[i].price == st.best_bid->0;
                    assert(clears_checks(limits, count, position, orders, i));
                },
                Side::Bid => {
                    let i = choose|i: int|
                        0 <= i < orders.len() && #[trigger] clears_checks(
                            limits,
                            count,
                            position,
                            orders,
                            i,
                        ) && orders[i].side == Side::Ask && orders[i].price == st.best_ask->0;
                    assert(clears_checks(limits, count, position, orders, i));
                },
            }
        }
    }
    if !crossing {
        if st2.rejected == st.rejected.push((o.id, RejectKind::SelfTrade)) {
            assert(st2.rejected.len() == st.rejected.len() + 1);
            assert(st2.rejected[st.rejected.len() as int] == (o.id, RejectKind::SelfTrade));
        }
    }
}

/// An order whose identifier an earlier order of the batch carries is
/// rejected as a duplicate; otherwise an order of zero quantity is rejected
/// for it; either way nothing is accepted for it and the running position
/// and best prices stay as they were.
pub proof fn law_duplicate_and_zero_rejected(
    stp: bool,
    limits: RiskLimits,
    count: u64,
    position: i64,
    orders: Seq<Order>,
    o: Order,
)
    ensures
        ({
            let st = bulk_run(stp, limits, count, position, orders);
            let st2 = bulk_run(stp, limits, count, position, orders.push(o));
            let dup = exists|i: int| 0 <= i < orders.len() && (#[trigger] orders[i]).id == o.id;
            &&& dup ==> st2.rejected == st.rejected.push((o.id, RejectKind::DuplicateId))
            &&& !dup && o.quantity == 0 ==> st2.rejected == st.rejected.push(
                (o.id, RejectKind::ZeroQuantity),
            )
            &&& dup || o.quantity == 0 ==> {
                &&& st2.accepted == st.accepted
                &&& st2.position == st.position
                &&& st2.best_bid == st.best_bid
                &&& st2.best_ask == st.best_ask
            }
        }),
{
    assert(orders.push(o).drop_last() =~= orders);
    assert(orders.push(o).last() == o);
    lemma_seen_ids(stp, limits, count, position, orders);
    let st = bulk_run(stp, limits, count, position, orders);
    if exists|i: int| 0 <= i < orders.len() && (#[trigger] orders[i]).id == o.id {
        let i = choose|i: int| 0 <= i < orders.len() && (#[trigger] orders[i]).id == o.id;
        assert(orders[i].id.0 == o.id.0);
        assert(st.seen.contains(o.id.0));
    } else if st.seen.contains(o.id.0) {
        let i = choose|i: int| 0 <= i < orders.len() && #[trigger] orders[i].id.0 == o.id.0;
        assert(orders[i].id == o.id);
    }
}

impl Default for BulkValidator {
    fn default() -> (v: Self)
        ensures
            v.self_trade_prevention,
            v.max_batch_size == 1000,
    {
        BulkValidator { self_trade_prevention: true, max_batch_size: 1000 }
    }
}

impl BulkValidator {
    /// A validator with the given settings.
    pub fn new(self_trade_prevention: bool, max_batch_size: usize) -> (v: Self)
        ensures
            v.self_trade_prevention == self_trade_prevention,
            v.max_batch_size == max_batch_size,
    {
        BulkValidator { self_trade_prevention, max_batch_size }
    }

    /// Validate a batch against `risk_manager`, starting from
    /// `current_position`.
    pub fn validate(
        &self,
        orders: &[Order],
        risk_manager: &RiskManager,
        current_position: i64,
    ) -> (r: BulkValidationResult)
        requires
            bulk_admissible(
                self.self_trade_prevention,
                risk_manager.limit_settings(),
                risk_manager.period_count(),
                current_position,
                orders@,
            ),
        ensures
            ({
                let st = bulk_run(
                    self.self_trade_prevention,
                    risk_manager.limit_settings(),
                    risk_manager.period_count(),
                    current_position,
                    orders@,
                );
                &&& r.accepted@ == st.accepted
                &&& r.rejected@.len() == st.rejected.len()
                &&& forall|i: int|
                    0 <= i < st.rejected.len() ==> (#[trigger] r.rejected@[i]).0 == st.rejected[i].0
                        && reason_matches(r.rejected@[i].1, st.rejected[i].1)
            }),
    {
        let ghost stp = self.self_trade_prevention;
        let ghost limits = risk_manager.limit_settings();
        let ghost count = risk_manager.period_count();
        let mut accepted: Vec<OrderId> = Vec::new();
        let mut rejected: Vec<(OrderId, BulkRejectReason)> = Vec::new();
        let mut seen_ids: HashSet<u64> = HashSet::new();
        let mut best_bid: Option<i64> = None;
        let mut best_ask: Option<i64> = None;
        let mut cumulative_position = current_position;
        let mut i: usize = 0;
        proof {
            assert(orders@.take(0) =~= Seq::<Order>::empty());
        }
        while i < orders.len()
            invariant
                0 <= i <= orders@.len(),
                stp == self.self_trade_prevention,
                limits == risk_manager.limit_settings(),
                count == risk_manager.period_count(),
                bulk_admissible(stp, limits, count, current_position, orders@),
                ({
                    let st = bulk_run(stp, limits, count, current_position, orders@.take(i as int));
                    &&& seen_ids@ == st.seen
                    &&& best_bid == st.best_bid
                    &&& best_ask == st.best_ask
                    &&& cumulative_position == st.position
                    &&& accepted@ == st.accepted
                    &&& rejected@.len() == st.rejected.len()
                    &&& forall|k: int|
                        0 <= k < st.rejected.len() ==> (#[trigger] rejected@[k]).0
                            == st.rejected[k].0 && reason_matches(
                            rejected@[k].1,
                            st.rejected[k].1,
                        )
                }),
            decreases orders@.len() - i,
        {
            let ghost st = bulk_run(stp, limits, count, current_position, orders@.take(i as int));
            let ghost o = orders@[i as int];
            proof {
                assert(orders@.take(i + 1).drop_last() =~= orders@.take(i as int));
                assert(orders@.take(i + 1).last() == o);
                assert(bulk_step_admissible(stp, limits, st, o));
            }
            let ghost next = bulk_step(stp, limits, count, st, o);
            let order = &orders[i];
            i = i + 1;
            if !seen_ids.insert(order.id.0) {
                rejected.push((order.id, BulkRejectReason::DuplicateId));
                proof {
                    assert(seen_ids@ =~= next.seen);
                }
                continue;
            }
            if order.quantity == 0 {
                rejected.push((order.id, BulkRejectReason::ZeroQuantity));
                continue;
            }
            if self.self_trade_prevention {
                match order.side {
                    Side::Bid => {
                        if let Some(ask) = best_ask {
                            if order.price >= ask {
                                rejected.push((order.id, BulkRejectReason::SelfTrade));
                                continue;
                            }
                        }
                        best_bid = Some(
                            match best_bid {
                                Some(b) => if b >= order.price {
                                    b
                                } else {
                                    order.price
                                },
                                None => order.price,
                            },
                        );
                    },
                    Side::Ask => {
                        if let Some(bid) = best_bid {
                            if order.price <= bid {
                                rejected.push((order.id, BulkRejectReason::SelfTrade));
                                continue;
                            }
                        }
                        best_ask = Some(
                            match best_ask {
                                Some(a) => if a <= order.price {
                                    a
                                } else {
                                    order.price
                                },
                                None => order.price,
                            },
                        );
                    },
                }
            }
            let risk_result = risk_manager.check_order(order, cumulative_position);
            match risk_result {
                RiskCheckResult::Passed => {
                    let delta = #[verifier::truncate] (order.quantity as i64);
                    match order.side {
                        Side::Bid => cumulative_position = cumulative_position + delta,
                        Side::Ask => cumulative_position = cumulative_position - delta,
                    }
                    accepted.push(order.id);
                },
                RiskCheckResult::Rejected(reason) => {
                    let text = reject_text(&reason);
                    rejected.push((order.id, BulkRejectReason::RiskCheck(text)));
                },
            }
        }
        proof {
            assert(orders@.take(orders@.len() as int) =~= orders@);
        }
        BulkValidationResult { accepted, rejected }
    }

    /// Whether [`Self::validate`] can run on this batch: the risk check of
    /// every order that reaches it stays within `i64`, and so does the
    /// running position after every order that passes.
    pub fn can_validate(&self, orders: &[Order], risk_manager: &RiskManager, current_position: i64) -> (ok:
        bool)
        ensures
            ok == bulk_admissible(
                self.self_trade_prevention,
                risk_manager.limit_settings(),
                risk_manager.period_count(),
                current_position,
                orders@,
            ),
    {
        let ghost stp = self.self_trade_prevention;
        let ghost limits = risk_manager.limit_settings();
        let ghost count = risk_manager.period_count();
        let mut seen_ids: HashSet<u64> = HashSet::new();
        let mut best_bid: Option<i64> = None;
        let mut best_ask: Option<i64> = None;
        let mut cumulative_position = current_position;
        let mut i: usize = 0;
        proof {
            assert(orders@.take(0) =~= Seq::<Order>::empty());
        }
        while i < orders.len()
            invariant
                0 <= i <= orders@.len(),
                stp == self.self_trade_prevention,
                limits == risk_manager.limit_settings(),
                count == risk_manager.period_count(),
                forall|k: int|
                    0 <= k < i ==> bulk_step_admissible(
                        stp,
                        limits,
                        bulk_run(stp, limits, count, current_position, #[trigger] orders@.take(k)),
                        orders@[k],
                    ),
                ({
                    let st = bulk_run(stp, limits, count, current_position, orders@.take(i as int));
                    &&& seen_ids@ == st.seen
                    &&& best_bid == st.best_bid
                    &&& best_ask == st.best_ask
                    &&& cumulative_position == st.position
                }),
            decreases orders@.len() - i,
        {
            let ghost st = bulk_run(stp, limits, count, current_position, orders@.take(i as int));
            let ghost o = orders@[i as int];
            let ghost k0 = i as int;
            proof {
                assert(orders@.take(i + 1).drop_last() =~= orders@.take(i as int));
                assert(orders@.take(i + 1).last() == o);
            }
            let ghost next = bulk_step(stp, limits, count, st, o);
            let order = &orders[i];
            i = i + 1;
            if !seen_ids.insert(order.id.0) {
                proof {
                    assert(seen_ids@ =~= next.seen);
                    assert(bulk_step_admissible(stp, limits, st, o));
                }
                continue;
            }
            if order.quantity == 0 {
                proof {
                    assert(bulk_step_admissible(stp, limits, st, o));
                }
                continue;
            }
            if self.self_trade_prevention {
                match order.side {
                    Side::Bid => {
                        if let Some(ask) = best_ask {
                            if order.price >= ask {
                                proof {
                                    assert(bulk_step_admissible(stp, limits, st, o));
                                }
                                continue;
                            }
                        }
                        best_bid = Some(
                            match best_bid {
                                Some(b) => if b >= order.price {
                                    b
                                } else {
                                    order.price
                                },
                                None => order.price,
                            },
                        );
                    },
                    Side::Ask => {
                        if let Some(bid) = best_bid {
                            if order.price <= bid {
                                proof {
                                    assert(bulk_step_admissible(stp, limits, st, o));
                                }
                                continue;
                            }
                        }
                        best_ask = Some(
                            match best_ask {
                                Some(a) => if a <= order.price {
                                    a
                                } else {
                                    order.price
                                },
                                None => order.price,
                            },
                        );
                    },
                }
            }
            let delta = #[verifier::truncate] (order.quantity as i64);
            let projected: i128 = match order.side {
                Side::Bid => cumulative_position as i128 + delta as i128,
                Side::Ask => cumulative_position as i128 - delta as i128,
            };
            let fits = i64::MIN as i128 <= projected && projected <= i64::MAX as i128;
            if !risk_manager.can_check_order(order, cumulative_position) {
                proof {
                    assert(!bulk_step_admissible(stp, limits, st, o));
                    assert(orders@.take(k0) == orders@.take(k0));
                }
                return false;
            }
            let risk_result = risk_manager.check_order(order, cumulative_position);
            match risk_result {
                RiskCheckResult::Passed => {
                    if !fits {
                        proof {
                            assert(!bulk_step_admissible(stp, limits, st, o));
                            assert(orders@.take(k0) == orders@.take(k0));
                        }
                        return false;
                    }
                    proof {
                        assert(bulk_step_admissible(stp, limits, st, o));
                    }
                    match order.side {
                        Side::Bid => cumulative_position = cumulative_position + delta,
                        Side::Ask => cumulative_position = cumulative_position - delta,
                    }
                },
                RiskCheckResult::Rejected(_) => {
                    proof {
                        assert(bulk_step_admissible(stp, limits, st, o));
                    }
                },
            }
        }
        true
    }

    /// The batch size `count` is within the limit.
    pub fn check_batch_size(&self, count: usize) -> (r: bool)
        ensures
            r == (count <= self.max_batch_size),
    {
        count <= self.max_batch_size
    }
}

} // verus!
