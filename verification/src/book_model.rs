//! Mathematical model of the order book: levels as sequences of resting
//! orders, and the matching, resting and cancelling steps as functions on it.

use vstd::prelude::*;

use crate::order::{Order, OrderId, OrderType, Side, TimeInForce};

verus! {

/// Record of a matched trade between a passive maker and an aggressive taker.
#[derive(Debug, Clone, PartialEq, Eq, Structural)]
pub struct Fill {
    /// ID of the resting (passive) order that was matched against.
    pub maker_id: OrderId,
    /// ID of the incoming (aggressive) order that triggered the match.
    pub taker_id: OrderId,
    /// Execution price in ticks (always the maker's limit price).
    pub price: i64,
    /// Quantity matched in this fill event.
    pub quantity: u64,
    /// Timestamp of the fill as nanoseconds since the Unix epoch.
    pub timestamp_ns: u64,
}

/// Abstract value of one price level.
pub struct LevelView {
    pub price: i64,
    pub orders: Seq<Order>,
    pub total: u64,
}

/// Abstract value of an order book: bid levels best (highest) first, ask
/// levels best (lowest) first, and the identifier index used by `cancel`.
pub struct BookView {
    pub bids: Seq<LevelView>,
    pub asks: Seq<LevelView>,
    pub index: Map<u64, (Side, i64)>,
}

// ---------------------------------------------------------------------------
// Sums
// ---------------------------------------------------------------------------

/// Sum of the unexecuted quantities of `os`.
pub open spec fn sum_rem(os: Seq<Order>) -> int
    decreases os.len(),
{
    if os.len() == 0 {
        0
    } else {
        sum_rem(os.drop_last()) + os.last().rem()
    }
}

/// Sum of the quantities of `fs`.
pub open spec fn sum_qty(fs: Seq<Fill>) -> int
    decreases fs.len(),
{
    if fs.len() == 0 {
        0
    } else {
        sum_qty(fs.drop_last()) + fs.last().quantity
    }
}

/// Sum of the level totals of `ls`.
pub open spec fn sum_total(ls: Seq<LevelView>) -> int
    decreases ls.len(),
{
    if ls.len() == 0 {
        0
    } else {
        sum_total(ls.drop_last()) + ls.last().total
    }
}

/// `m` with every key of `ids` removed, in order.
pub open spec fn remove_all(m: Map<u64, (Side, i64)>, ids: Seq<u64>) -> Map<u64, (Side, i64)>
    decreases ids.len(),
{
    if ids.len() == 0 {
        m
    } else {
        remove_all(m, ids.drop_last()).remove(ids.last())
    }
}

/// The remaining quantity of a concatenation is the sum of the parts.
pub proof fn lemma_sum_rem_concat(a: Seq<Order>, b: Seq<Order>)
    ensures
        sum_rem(a + b) == sum_rem(a) + sum_rem(b),
    decreases b.len(),
{
    if b.len() == 0 {
        assert(a + b =~= a);
    } else {
        assert((a + b).drop_last() =~= a + b.drop_last());
        lemma_sum_rem_concat(a, b.drop_last());
    }
}

/// The filled quantity of a concatenation is the sum of the parts.
pub proof fn lemma_sum_qty_concat(a: Seq<Fill>, b: Seq<Fill>)
    ensures
        sum_qty(a + b) == sum_qty(a) + sum_qty(b),
    decreases b.len(),
{
    if b.len() == 0 {
        assert(a + b =~= a);
    } else {
        assert((a + b).drop_last() =~= a + b.drop_last());
        lemma_sum_qty_concat(a, b.drop_last());
    }
}

/// The level totals of a concatenation add up.
pub proof fn lemma_sum_total_concat(a: Seq<LevelView>, b: Seq<LevelView>)
    ensures
        sum_total(a + b) == sum_total(a) + sum_total(b),
    decreases b.len(),
{
    if b.len() == 0 {
        assert(a + b =~= a);
    } else {
        assert((a + b).drop_last() =~= a + b.drop_last());
        lemma_sum_total_concat(a, b.drop_last());
    }
}

/// Removing two lists of keys in turn is removing their concatenation.
pub proof fn lemma_remove_all_concat(m: Map<u64, (Side, i64)>, a: Seq<u64>, b: Seq<u64>)
    ensures
        remove_all(m, a + b) == remove_all(remove_all(m, a), b),
    decreases b.len(),
{
    if b.len() == 0 {
        assert(a + b =~= a);
    } else {
        assert((a + b).drop_last() =~= a + b.drop_last());
        lemma_remove_all_concat(m, a, b.drop_last());
    }
}

/// Splitting off the first element of a sum of remaining quantities.
pub proof fn lemma_sum_rem_first(os: Seq<Order>)
    requires
        os.len() > 0,
    ensures
        sum_rem(os) == os[0].rem() + sum_rem(os.drop_first()),
{
    assert(os =~= seq![os[0]] + os.drop_first());
    lemma_sum_rem_concat(seq![os[0]], os.drop_first());
    assert(seq![os[0]].drop_last() =~= Seq::<Order>::empty());
    reveal_with_fuel(sum_rem, 2);
}

/// Remaining quantities of unfilled orders add up to a non-negative sum.
pub proof fn lemma_sum_rem_nonneg(os: Seq<Order>)
    requires
        forall|j: int| 0 <= j < os.len() ==> (#[trigger] os[j]).filled_quantity <= os[j].quantity,
    ensures
        sum_rem(os) >= 0,
    decreases os.len(),
{
    if os.len() > 0 {
        lemma_sum_rem_nonneg(os.drop_last());
    }
}

/// The level totals are the first total plus those of the rest.
pub proof fn lemma_sum_total_first(ls: Seq<LevelView>)
    requires
        ls.len() > 0,
    ensures
        sum_total(ls) == ls[0].total + sum_total(ls.drop_first()),
{
    assert(ls =~= seq![ls[0]] + ls.drop_first());
    lemma_sum_total_concat(seq![ls[0]], ls.drop_first());
    assert(seq![ls[0]].drop_last() =~= Seq::<LevelView>::empty());
    reveal_with_fuel(sum_total, 2);
}

/// The filled quantity of one fill is its quantity.
pub proof fn lemma_sum_qty_single(f: Fill)
    ensures
        sum_qty(seq![f]) == f.quantity,
{
    assert(seq![f].drop_last() =~= Seq::<Fill>::empty());
    reveal_with_fuel(sum_qty, 2);
}

// ---------------------------------------------------------------------------
// Well-formedness
// ---------------------------------------------------------------------------

/// `a` is a strictly better price than `b` for resting orders of `side`.
pub open spec fn better(side: Side, a: i64, b: i64) -> bool {
    match side {
        Side::Bid => a > b,
        Side::Ask => a < b,
    }
}

/// Every order rests unfilled at the level's price and side, the level is
/// not empty, and its total is the sum of what remains of its orders.
pub open spec fn level_wf(l: LevelView, side: Side) -> bool {
    &&& l.orders.len() > 0
    &&& l.total == sum_rem(l.orders)
    &&& forall|j: int|
        0 <= j < l.orders.len() ==> {
            &&& (#[trigger] l.orders[j]).price == l.price
            &&& l.orders[j].side == side
            &&& l.orders[j].filled_quantity < l.orders[j].quantity
        }
}

/// Levels of one side: each well formed, best price first, strictly sorted.
pub open spec fn levels_wf(ls: Seq<LevelView>, side: Side) -> bool {
    &&& forall|i: int| 0 <= i < ls.len() ==> level_wf(#[trigger] ls[i], side)
    &&& forall|i: int, j: int|
        0 <= i < j < ls.len() ==> better(side, #[trigger] ls[i].price, #[trigger] ls[j].price)
}

impl BookView {
    /// Both sides well formed, and the book is not crossed: the best bid is
    /// strictly below the best ask.
    pub open spec fn wf(self) -> bool {
        &&& levels_wf(self.bids, Side::Bid)
        &&& levels_wf(self.asks, Side::Ask)
        &&& self.uncrossed()
    }

    /// The best bid, if any, is strictly below the best ask, if any.
    pub open spec fn uncrossed(self) -> bool {
        self.bids.len() > 0 && self.asks.len() > 0 ==> self.bids[0].price < self.asks[0].price
    }

    /// Levels of `side`.
    pub open spec fn side_levels(self, side: Side) -> Seq<LevelView> {
        match side {
            Side::Bid => self.bids,
            Side::Ask => self.asks,
        }
    }

    /// `self` with the levels of `side` replaced.
    pub open spec fn with_side(self, side: Side, ls: Seq<LevelView>) -> BookView {
        match side {
            Side::Bid => BookView { bids: ls, ..self },
            Side::Ask => BookView { asks: ls, ..self },
        }
    }

    /// Best bid price.
    pub open spec fn best_bid(self) -> Option<i64> {
        if self.bids.len() > 0 {
            Some(self.bids[0].price)
        } else {
            None
        }
    }

    /// Best ask price.
    pub open spec fn best_ask(self) -> Option<i64> {
        if self.asks.len() > 0 {
            Some(self.asks[0].price)
        } else {
            None
        }
    }
}

/// The side an order of `side` trades against.
pub open spec fn opposite(side: Side) -> Side {
    match side {
        Side::Bid => Side::Ask,
        Side::Ask => Side::Bid,
    }
}

// ---------------------------------------------------------------------------
// Matching
// ---------------------------------------------------------------------------

/// The fill record produced when `qty` lots of `maker` trade against `taker_id`.
pub open spec fn mk_fill(maker: Order, taker_id: OrderId, qty: u64, ts: u64) -> Fill {
    Fill { maker_id: maker.id, taker_id, price: maker.price, quantity: qty, timestamp_ns: ts }
}

/// Match up to `want` lots against the FIFO queue `os`, oldest first.
/// Returns the queue left over, the fills in order, and the identifiers of
/// the makers that were completely filled (and so left the queue).
pub open spec fn sweep_level(os: Seq<Order>, want: int, taker_id: OrderId, ts: u64) -> (
    Seq<Order>,
    Seq<Fill>,
    Seq<u64>,
)
    decreases os.len(),
{
    if want <= 0 || os.len() == 0 {
        (os, seq![], seq![])
    } else {
        let m = os[0];
        let r = m.rem();
        if r <= 0 {
            (os, seq![], seq![])
        } else if want < r {
            (
                os.update(0, Order { filled_quantity: (m.filled_quantity + want) as u64, ..m }),
                seq![mk_fill(m, taker_id, want as u64, ts)],
                seq![],
            )
        } else {
            let rest = sweep_level(os.drop_first(), want - r, taker_id, ts);
            (rest.0, seq![mk_fill(m, taker_id, r as u64, ts)] + rest.1, seq![m.id.0] + rest.2)
        }
    }
}

/// A resting level at `level_price` is marketable for a taker of
/// `taker_side` whose limit is `limit`.
pub open spec fn crosses(taker_side: Side, level_price: i64, limit: i64) -> bool {
    match taker_side {
        Side::Bid => level_price <= limit,
        Side::Ask => level_price >= limit,
    }
}

/// The worst price a taker accepts: its limit price, or the extreme of the
/// price range for a market order.
pub open spec fn taker_limit(o: Order) -> i64 {
    match o.order_type {
        OrderType::Market => match o.side {
            Side::Bid => i64::MAX,
            Side::Ask => i64::MIN,
        },
        _ => o.price,
    }
}

/// Match up to `want` lots against the opposite-side levels `ls`, best level
/// first, for as long as levels cross the taker's `limit`. Exhausted levels
/// are removed. Returns the levels left, the fills and the identifiers of
/// the makers that were completely filled.
pub open spec fn sweep_side(
    ls: Seq<LevelView>,
    want: int,
    taker_side: Side,
    limit: i64,
    taker_id: OrderId,
    ts: u64,
) -> (Seq<LevelView>, Seq<Fill>, Seq<u64>)
    decreases ls.len(),
{
    if want <= 0 || ls.len() == 0 || !crosses(taker_side, ls[0].price, limit) {
        (ls, seq![], seq![])
    } else {
        let l = ls[0];
        let r1 = sweep_level(l.orders, want, taker_id, ts);
        let q = sum_qty(r1.1);
        let rest = sweep_side(ls.drop_first(), want - q, taker_side, limit, taker_id, ts);
        let head = if r1.0.len() == 0 {
            Seq::<LevelView>::empty()
        } else {
            seq![LevelView { price: l.price, orders: r1.0, total: (l.total - q) as u64 }]
        };
        (head + rest.0, r1.1 + rest.1, r1.2 + rest.2)
    }
}

/// Total resting quantity on the levels of `ls` that cross `limit`.
pub open spec fn crossing_liquidity(ls: Seq<LevelView>, taker_side: Side, limit: i64) -> int
    decreases ls.len(),
{
    if ls.len() == 0 || !crosses(taker_side, ls[0].price, limit) {
        0
    } else {
        ls[0].total + crossing_liquidity(ls.drop_first(), taker_side, limit)
    }
}

} // verus!

verus! {

// ---------------------------------------------------------------------------
// Properties of one level's sweep
// ---------------------------------------------------------------------------

/// What a sweep of one FIFO queue does: it consumes a prefix of the queue
/// oldest first, possibly partially fills the next maker, produces one fill
/// per touched maker at that maker's price, and conserves quantity.
pub proof fn lemma_sweep_level(os: Seq<Order>, want: int, taker_id: OrderId, ts: u64)
    requires
        forall|j: int| 0 <= j < os.len() ==> (#[trigger] os[j]).filled_quantity < os[j].quantity,
    ensures
        ({
            let r = sweep_level(os, want, taker_id, ts);
            let d = os.len() - r.0.len();
            &&& sum_rem(os) == sum_rem(r.0) + sum_qty(r.1)
            &&& 0 <= sum_qty(r.1)
            &&& want <= 0 ==> r.1.len() == 0
            &&& want > 0 ==> sum_qty(r.1) <= want
            &&& r.0.len() > 0 && want > 0 ==> sum_qty(r.1) == want
            &&& 0 <= d <= os.len()
            &&& r.2.len() == d
            &&& (r.1.len() == d || r.1.len() == d + 1)
            &&& r.1.len() <= os.len()
            &&& r.1.len() == d + 1 ==> r.0.len() > 0 && r.0[0] == (Order {
                filled_quantity: (os[d].filled_quantity + r.1[d].quantity) as u64,
                ..os[d]
            })
            &&& r.1.len() == d ==> r.0 == os.skip(d)
            &&& forall|j: int| 0 < j < r.0.len() ==> #[trigger] r.0[j] == os[j + d]
            &&& forall|j: int|
                0 <= j < r.0.len() ==> (#[trigger] r.0[j]).filled_quantity < r.0[j].quantity
                    && r.0[j].price == os[j + d].price && r.0[j].side == os[j + d].side
                    && r.0[j].id == os[j + d].id
            &&& forall|i: int|
                0 <= i < r.1.len() ==> #[trigger] r.1[i] == mk_fill(
                    os[i],
                    taker_id,
                    r.1[i].quantity,
                    ts,
                ) && 0 < r.1[i].quantity <= os[i].rem()
            &&& forall|i: int| 0 <= i < d ==> (#[trigger] r.1[i]).quantity == os[i].rem()
            &&& forall|i: int| 0 <= i < d ==> #[trigger] r.2[i] == os[i].id.0
        }),
    decreases os.len(),
{
    let r = sweep_level(os, want, taker_id, ts);
    if want <= 0 || os.len() == 0 {
        assert(os.skip(0) =~= os);
    } else {
        let m = os[0];
        let rm = m.rem();
        lemma_sum_rem_first(os);
        if want < rm {
            let u = Order { filled_quantity: (m.filled_quantity + want) as u64, ..m };
            assert(r.0 =~= seq![u] + os.drop_first());
            lemma_sum_rem_first(r.0);
            assert(r.0.drop_first() =~= os.drop_first());
            lemma_sum_qty_single(mk_fill(m, taker_id, want as u64, ts));
        } else {
            let rest = sweep_level(os.drop_first(), want - rm, taker_id, ts);
            lemma_sweep_level(os.drop_first(), want - rm, taker_id, ts);
            let f = mk_fill(m, taker_id, rm as u64, ts);
            lemma_sum_qty_concat(seq![f], rest.1);
            lemma_sum_qty_single(f);
            let d1 = os.drop_first().len() - rest.0.len();
            assert(r.1 == seq![f] + rest.1);
            assert forall|i: int| 0 <= i < r.1.len() implies #[trigger] r.1[i] == mk_fill(
                os[i],
                taker_id,
                r.1[i].quantity,
                ts,
            ) && 0 < r.1[i].quantity <= os[i].rem() by {
                if i > 0 {
                    assert(r.1[i] == rest.1[i - 1]);
                    assert(os.drop_first()[i - 1] == os[i]);
                }
            }
            assert forall|i: int| 0 <= i < os.len() - r.0.len() implies (#[trigger] r.1[i]).quantity
                == os[i].rem() by {
                if i > 0 {
                    assert(r.1[i] == rest.1[i - 1]);
                    assert(os.drop_first()[i - 1] == os[i]);
                }
            }
            assert forall|i: int| 0 <= i < os.len() - r.0.len() implies #[trigger] r.2[i]
                == os[i].id.0 by {
                if i > 0 {
                    assert(r.2[i] == rest.2[i - 1]);
                    assert(os.drop_first()[i - 1] == os[i]);
                }
            }
            if r.1.len() == os.len() - r.0.len() {
                assert(rest.0 =~= os.drop_first().skip(d1));
                assert(r.0 =~= os.skip(os.len() - r.0.len()));
            }
        }
    }
}

/// Levels of one side are individually usable by the matching step.
pub open spec fn levels_fillable(ls: Seq<LevelView>) -> bool {
    forall|i: int|
        0 <= i < ls.len() ==> {
            &&& (#[trigger] ls[i]).total == sum_rem(ls[i].orders)
            &&& forall|j: int|
                0 <= j < ls[i].orders.len() ==> (#[trigger] ls[i].orders[j]).filled_quantity
                    < ls[i].orders[j].quantity
        }
}

/// A well-formed side can be swept.
pub proof fn lemma_wf_fillable(ls: Seq<LevelView>, side: Side)
    requires
        levels_wf(ls, side),
    ensures
        levels_fillable(ls),
{
    assert forall|i: int| 0 <= i < ls.len() implies {
        &&& (#[trigger] ls[i]).total == sum_rem(ls[i].orders)
        &&& forall|j: int|
            0 <= j < ls[i].orders.len() ==> (#[trigger] ls[i].orders[j]).filled_quantity
                < ls[i].orders[j].quantity
    } by {
        assert(level_wf(ls[i], side));
    }
}

/// Level totals add up to a non-negative sum.
pub proof fn lemma_sum_total_nonneg(ls: Seq<LevelView>)
    ensures
        sum_total(ls) >= 0,
    decreases ls.len(),
{
    if ls.len() > 0 {
        lemma_sum_total_nonneg(ls.drop_last());
    }
}

/// What a sweep of one side does: it consumes the best levels first, keeps
/// the side well formed, never improves the side's best price, conserves
/// quantity, trades only at crossing prices, and stops early only when the
/// taker is satisfied.
pub proof fn lemma_sweep_side(
    ls: Seq<LevelView>,
    want: int,
    taker_side: Side,
    limit: i64,
    taker_id: OrderId,
    ts: u64,
)
    requires
        levels_wf(ls, opposite(taker_side)),
    ensures
        ({
            let r = sweep_side(ls, want, taker_side, limit, taker_id, ts);
            &&& sum_total(ls) == sum_total(r.0) + sum_qty(r.1)
            &&& 0 <= sum_qty(r.1)
            &&& want <= 0 ==> r.1.len() == 0 && r == (ls, Seq::<Fill>::empty(), Seq::<u64>::empty())
            &&& want > 0 ==> sum_qty(r.1) <= want
            &&& levels_wf(r.0, opposite(taker_side))
            &&& r.0.len() > 0 ==> ls.len() > 0 && !better(
                opposite(taker_side),
                r.0[0].price,
                ls[0].price,
            )
            &&& sum_qty(r.1) < want ==> r.0.len() == 0 || !crosses(taker_side, r.0[0].price, limit)
            &&& forall|i: int|
                0 <= i < r.1.len() ==> crosses(taker_side, (#[trigger] r.1[i]).price, limit)
        }),
    decreases ls.len(),
{
    let opp = opposite(taker_side);
    let r = sweep_side(ls, want, taker_side, limit, taker_id, ts);
    if want <= 0 || ls.len() == 0 || !crosses(taker_side, ls[0].price, limit) {
    } else {
        let l = ls[0];
        assert(level_wf(l, opp));
        let r1 = sweep_level(l.orders, want, taker_id, ts);
        lemma_sweep_level(l.orders, want, taker_id, ts);
        let q = sum_qty(r1.1);
        let tail = ls.drop_first();
        assert(levels_wf(tail, opp)) by {
            assert forall|i: int| 0 <= i < tail.len() implies level_wf(#[trigger] tail[i], opp) by {
                assert(tail[i] == ls[i + 1]);
            }
            assert forall|i: int, j: int| 0 <= i < j < tail.len() implies better(
                opp,
                #[trigger] tail[i].price,
                #[trigger] tail[j].price,
            ) by {
                assert(tail[i] == ls[i + 1]);
                assert(tail[j] == ls[j + 1]);
            }
        }
        let rest = sweep_side(tail, want - q, taker_side, limit, taker_id, ts);
        lemma_sweep_side(tail, want - q, taker_side, limit, taker_id, ts);
        lemma_sum_total_first(ls);
        lemma_sum_qty_concat(r1.1, rest.1);
        let hl = LevelView { price: l.price, orders: r1.0, total: (l.total - q) as u64 };
        let head = if r1.0.len() == 0 {
            Seq::<LevelView>::empty()
        } else {
            seq![hl]
        };
        assert(r.0 == head + rest.0);
        lemma_sum_total_concat(head, rest.0);
        if r1.0.len() > 0 {
            assert(head.drop_last() =~= Seq::<LevelView>::empty());
            reveal_with_fuel(sum_total, 2);
            lemma_sum_rem_nonneg(r1.0);
            assert(level_wf(hl, opp)) by {
                let d = l.orders.len() - r1.0.len();
                assert forall|j: int| 0 <= j < hl.orders.len() implies {
                    &&& (#[trigger] hl.orders[j]).price == hl.price
                    &&& hl.orders[j].side == opp
                    &&& hl.orders[j].filled_quantity < hl.orders[j].quantity
                } by {
                    assert(hl.orders[j].price == l.orders[j + d].price);
                }
            }
            // taker satisfied at this level: the rest is untouched
            assert(rest.0 == tail);
        }
        // well-formedness of head + rest
        assert(levels_wf(r.0, opp)) by {
            if r1.0.len() > 0 {
                assert forall|i: int| 0 <= i < r.0.len() implies level_wf(#[trigger] r.0[i], opp) by {
                    if i > 0 {
                        assert(r.0[i] == tail[i - 1]);
                    }
                }
                assert forall|i: int, j: int| 0 <= i < j < r.0.len() implies better(
                    opp,
                    #[trigger] r.0[i].price,
                    #[trigger] r.0[j].price,
                ) by {
                    if i > 0 {
                        assert(r.0[i] == tail[i - 1]);
                        assert(r.0[j] == tail[j - 1]);
                    } else {
                        assert(r.0[j] == ls[j]);
                    }
                }
            } else {
                assert(r.0 =~= rest.0);
            }
        }
        if r.0.len() > 0 {
            if r1.0.len() == 0 {
                assert(r.0 =~= rest.0);
                if ls.len() > 1 {
                    assert(better(opp, ls[0].price, ls[1].price));
                }
            }
        }
        if sum_qty(r.1) < want {
            if r1.0.len() > 0 {
                assert(false);
            }
            assert(r.0 =~= rest.0);
        }
        assert forall|i: int| 0 <= i < r.1.len() implies crosses(
            taker_side,
            (#[trigger] r.1[i]).price,
            limit,
        ) by {
            if i < r1.1.len() {
                assert(r.1[i] == r1.1[i]);
                assert(l.orders[i].price == l.price);
            } else {
                assert(r.1[i] == rest.1[i - r1.1.len()]);
            }
        }
    }
}

} // verus!

verus! {

// ---------------------------------------------------------------------------
// Resting
// ---------------------------------------------------------------------------

/// Number of leading levels of `ls` with a price strictly better than
/// `price` for `side`: the position where a level at `price` belongs.
pub open spec fn better_count(ls: Seq<LevelView>, side: Side, price: i64) -> int
    decreases ls.len(),
{
    if ls.len() == 0 || !better(side, ls[0].price, price) {
        0
    } else {
        1 + better_count(ls.drop_first(), side, price)
    }
}

/// `ls` with `o` appended to the FIFO queue of the level at `o.price`,
/// creating that level in sorted position if needed.
pub open spec fn rest_into(ls: Seq<LevelView>, o: Order) -> Seq<LevelView> {
    let p = better_count(ls, o.side, o.price);
    if p < ls.len() && ls[p].price == o.price {
        ls.update(
            p,
            LevelView {
                price: ls[p].price,
                orders: ls[p].orders.push(o),
                total: (ls[p].total + o.rem()) as u64,
            },
        )
    } else {
        ls.insert(p, LevelView { price: o.price, orders: seq![o], total: o.rem() as u64 })
    }
}

/// Resting quantity of the level at `price` in `ls` (zero if none).
pub open spec fn level_total_at(ls: Seq<LevelView>, side: Side, price: i64) -> int {
    let p = better_count(ls, side, price);
    if p < ls.len() && ls[p].price == price {
        ls[p].total as int
    } else {
        0
    }
}

/// `better_count` counts the leading levels with a better price.
pub proof fn lemma_better_count(ls: Seq<LevelView>, side: Side, price: i64)
    ensures
        0 <= better_count(ls, side, price) <= ls.len(),
        forall|k: int|
            0 <= k < better_count(ls, side, price) ==> better(side, #[trigger] ls[k].price, price),
        better_count(ls, side, price) < ls.len() ==> !better(
            side,
            ls[better_count(ls, side, price)].price,
            price,
        ),
    decreases ls.len(),
{
    if ls.len() > 0 && better(side, ls[0].price, price) {
        lemma_better_count(ls.drop_first(), side, price);
        assert forall|k: int| 0 <= k < better_count(ls, side, price) implies better(
            side,
            #[trigger] ls[k].price,
            price,
        ) by {
            if k > 0 {
                assert(ls[k] == ls.drop_first()[k - 1]);
            }
        }
    }
}

/// Any position with the two defining properties is the better count.
pub proof fn lemma_better_count_unique(ls: Seq<LevelView>, side: Side, price: i64, i: int)
    requires
        0 <= i <= ls.len(),
        forall|k: int| 0 <= k < i ==> better(side, #[trigger] ls[k].price, price),
        i < ls.len() ==> !better(side, ls[i].price, price),
    ensures
        i == better_count(ls, side, price),
    decreases ls.len(),
{
    lemma_better_count(ls, side, price);
    if i > 0 {
        assert(better(side, ls[0].price, price));
        assert forall|k: int| 0 <= k < i - 1 implies better(
            side,
            #[trigger] ls.drop_first()[k].price,
            price,
        ) by {
            assert(ls.drop_first()[k] == ls[k + 1]);
        }
        if i - 1 < ls.drop_first().len() {
            assert(ls.drop_first()[i - 1] == ls[i]);
        }
        lemma_better_count_unique(ls.drop_first(), side, price, i - 1);
    } else {
        if ls.len() > 0 {
            assert(!better(side, ls[0].price, price));
        }
    }
}

/// Appending an order adds what remains of it.
pub proof fn lemma_sum_rem_push(os: Seq<Order>, o: Order)
    ensures
        sum_rem(os.push(o)) == sum_rem(os) + o.rem(),
{
    assert(os.push(o).drop_last() =~= os);
}

/// Resting an unfilled order of `side` keeps the side well formed, and the
/// side's best price becomes the better of the old best and the order price.
pub proof fn lemma_rest_into(ls: Seq<LevelView>, o: Order)
    requires
        levels_wf(ls, o.side),
        o.filled_quantity < o.quantity,
        level_total_at(ls, o.side, o.price) + o.rem() <= u64::MAX,
    ensures
        levels_wf(rest_into(ls, o), o.side),
        rest_into(ls, o).len() > 0,
        rest_into(ls, o)[0].price == (if ls.len() == 0 || better(o.side, o.price, ls[0].price) {
            o.price
        } else {
            ls[0].price
        }),
{
    let side = o.side;
    let p = better_count(ls, side, o.price);
    lemma_better_count(ls, side, o.price);
    let r = rest_into(ls, o);
    if p < ls.len() && ls[p].price == o.price {
        let l = ls[p];
        assert(level_wf(l, side));
        lemma_sum_rem_push(l.orders, o);
        let nl = LevelView { price: l.price, orders: l.orders.push(o), total: (l.total + o.rem()) as u64 };
        assert(level_wf(nl, side)) by {
            assert forall|j: int| 0 <= j < nl.orders.len() implies {
                &&& (#[trigger] nl.orders[j]).price == nl.price
                &&& nl.orders[j].side == side
                &&& nl.orders[j].filled_quantity < nl.orders[j].quantity
            } by {
                if j < l.orders.len() {
                    assert(nl.orders[j] == l.orders[j]);
                }
            }
        }
        assert forall|i: int| 0 <= i < r.len() implies level_wf(#[trigger] r[i], side) by {
            if i != p {
                assert(r[i] == ls[i]);
            }
        }
        assert forall|i: int, j: int| 0 <= i < j < r.len() implies better(
            side,
            #[trigger] r[i].price,
            #[trigger] r[j].price,
        ) by {
            assert(r[i].price == ls[i].price);
            assert(r[j].price == ls[j].price);
        }
        if p > 0 {
            assert(r[0] == ls[0]);
        } else if ls.len() > 0 {
            assert(!better(side, o.price, ls[0].price));
        }
    } else {
        let nl = LevelView { price: o.price, orders: seq![o], total: o.rem() as u64 };
        lemma_sum_rem_push(Seq::<Order>::empty(), o);
        assert(seq![o] =~= Seq::<Order>::empty().push(o));
        assert(level_wf(nl, side));
        assert(r == ls.insert(p, nl));
        assert forall|i: int| 0 <= i < r.len() implies level_wf(#[trigger] r[i], side) by {
            if i < p {
                assert(r[i] == ls[i]);
            } else if i > p {
                assert(r[i] == ls[i - 1]);
            }
        }
        assert forall|i: int, j: int| 0 <= i < j < r.len() implies better(
            side,
            #[trigger] r[i].price,
            #[trigger] r[j].price,
        ) by {
            if j < p {
                assert(r[i] == ls[i]);
                assert(r[j] == ls[j]);
            } else if j == p {
                assert(r[i] == ls[i]);
            } else if i == p {
                assert(r[j] == ls[j - 1]);
                // ls[p] is not better than price, and differs from it
                assert(ls[p].price != o.price);
                if j - 1 > p {
                    assert(better(side, ls[p].price, ls[j - 1].price));
                }
            } else if i < p {
                assert(r[i] == ls[i]);
                assert(r[j] == ls[j - 1]);
                if i < j - 1 {
                    assert(better(side, ls[i].price, ls[j - 1].price));
                } else {
                    assert(i == p - 1);
                    assert(ls[p].price != o.price);
                }
            } else {
                assert(r[i] == ls[i - 1]);
                assert(r[j] == ls[j - 1]);
            }
        }
        if p > 0 {
            assert(r[0] == ls[0]);
        }
    }
}

// ---------------------------------------------------------------------------
// Submission
// ---------------------------------------------------------------------------

/// A good-till-date order whose expiry has passed at `now` (a `now` of zero
/// disables the check).
pub open spec fn gtd_expired(o: Order, now: u64) -> bool {
    match o.time_in_force {
        TimeInForce::GTD { expiry_ns } => now > 0 && expiry_ns <= now,
        _ => false,
    }
}

/// A fill-or-kill order that the crossing liquidity cannot fill entirely.
pub open spec fn fok_blocked(book: BookView, o: Order) -> bool {
    &&& o.time_in_force == TimeInForce::FOK
    &&& crossing_liquidity(book.side_levels(opposite(o.side)), o.side, taker_limit(o)) < o.rem()
}

/// The matching phase of a submission: the opposite side after matching,
/// the fills, and the identifiers of the makers that were filled completely.
pub open spec fn match_result(book: BookView, o: Order) -> (Seq<LevelView>, Seq<Fill>, Seq<u64>) {
    let opp = book.side_levels(opposite(o.side));
    if fok_blocked(book, o) {
        (opp, seq![], seq![])
    } else {
        sweep_side(opp, o.rem(), o.side, taker_limit(o), o.id, o.timestamp_ns)
    }
}

/// After `executed` lots were matched, the remainder of `o` rests on the book.
pub open spec fn rests(o: Order, executed: int) -> bool {
    &&& o.filled_quantity + executed < o.quantity
    &&& !(o.order_type is Market)
    &&& (o.time_in_force is GTC || o.time_in_force is GTD)
}

/// The book after the matching phase, before any remainder rests.
pub open spec fn after_match(book: BookView, o: Order) -> BookView {
    let m = match_result(book, o);
    BookView { index: remove_all(book.index, m.2), ..book.with_side(opposite(o.side), m.0) }
}

/// The taker after the matching phase.
pub open spec fn matched_taker(book: BookView, o: Order) -> Order {
    Order { filled_quantity: (o.filled_quantity + sum_qty(match_result(book, o).1)) as u64, ..o }
}

/// The outcome of submitting `o` at time `now`: the new book and the fills.
pub open spec fn insert_result(book: BookView, o: Order, now: u64) -> (BookView, Seq<Fill>) {
    if gtd_expired(o, now) {
        (book, seq![])
    } else {
        let m = match_result(book, o);
        let b1 = after_match(book, o);
        if rests(o, sum_qty(m.1)) {
            let t = matched_taker(book, o);
            (
                BookView {
                    index: b1.index.insert(o.id.0, (o.side, o.price)),
                    ..b1.with_side(o.side, rest_into(b1.side_levels(o.side), t))
                },
                m.1,
            )
        } else {
            (b1, m.1)
        }
    }
}

/// A submission stays within the integer ranges the engine computes in: a
/// fill-or-kill order's remaining quantity and the crossing liquidity it is
/// checked against are representable, and the level a remainder rests on
/// can hold it.
pub open spec fn insert_admissible(book: BookView, o: Order, now: u64) -> bool {
    !gtd_expired(o, now) ==> {
        &&& o.time_in_force == TimeInForce::FOK ==> {
            &&& o.filled_quantity <= o.quantity
            &&& crossing_liquidity(book.side_levels(opposite(o.side)), o.side, taker_limit(o))
                <= u64::MAX
        }
        &&& rests(o, sum_qty(match_result(book, o).1)) ==> level_total_at(
            book.side_levels(o.side),
            o.side,
            o.price,
        ) + matched_taker(book, o).rem() <= u64::MAX
    }
}

/// Facts about the matching phase of an admissible submission to a well
/// formed book.
pub proof fn lemma_match_result(book: BookView, o: Order)
    requires
        book.wf(),
    ensures
        ({
            let m = match_result(book, o);
            let opp = book.side_levels(opposite(o.side));
            &&& levels_wf(m.0, opposite(o.side))
            &&& sum_total(opp) == sum_total(m.0) + sum_qty(m.1)
            &&& 0 <= sum_qty(m.1)
            &&& o.rem() <= 0 ==> m.1.len() == 0
            &&& o.rem() > 0 ==> sum_qty(m.1) <= o.rem()
            &&& m.0.len() > 0 ==> opp.len() > 0 && !better(opposite(o.side), m.0[0].price, opp[0].price)
            &&& !fok_blocked(book, o) && sum_qty(m.1) < o.rem() ==> m.0.len() == 0 || !crosses(
                o.side,
                m.0[0].price,
                taker_limit(o),
            )
            &&& forall|i: int| 0 <= i < m.1.len() ==> crosses(o.side, (#[trigger] m.1[i]).price, taker_limit(o))
        }),
{
    let opp = book.side_levels(opposite(o.side));
    assert(levels_wf(opp, opposite(o.side)));
    lemma_sweep_side(opp, o.rem(), o.side, taker_limit(o), o.id, o.timestamp_ns);
    lemma_sum_total_nonneg(opp);
}

/// Submitting an admissible order to a well formed book leaves it well
/// formed; in particular the book is never crossed.
pub proof fn lemma_insert_wf(book: BookView, o: Order, now: u64)
    requires
        book.wf(),
        insert_admissible(book, o, now),
    ensures
        insert_result(book, o, now).0.wf(),
{
    if !gtd_expired(o, now) {
        let m = match_result(book, o);
        lemma_match_result(book, o);
        let b1 = after_match(book, o);
        assert(b1.wf());
        if rests(o, sum_qty(m.1)) {
            let t = matched_taker(book, o);
            let same = b1.side_levels(o.side);
            assert(same == book.side_levels(o.side));
            lemma_rest_into(same, t);
            assert(!fok_blocked(book, o));
            assert(taker_limit(o) == o.price);
        }
    }
}

} // verus!

verus! {

/// Crossing liquidity is never negative.
pub proof fn lemma_crossing_liquidity_nonneg(ls: Seq<LevelView>, taker_side: Side, limit: i64)
    ensures
        crossing_liquidity(ls, taker_side, limit) >= 0,
    decreases ls.len(),
{
    if ls.len() > 0 && crosses(taker_side, ls[0].price, limit) {
        lemma_crossing_liquidity_nonneg(ls.drop_first(), taker_side, limit);
    }
}

/// `(price, total)` of the first `n` levels of `ls` (fewer if `ls` is shorter).
pub open spec fn depth_of(ls: Seq<LevelView>, n: int) -> Seq<(i64, u64)> {
    let k = if n < ls.len() {
        n
    } else {
        ls.len() as int
    };
    Seq::new(k as nat, |i: int| (ls[i].price, ls[i].total))
}

} // verus!

verus! {

// ---------------------------------------------------------------------------
// Cancellation
// ---------------------------------------------------------------------------

/// Position of the first level of `ls` at `price`, or `ls.len()` if none.
pub open spec fn find_level(ls: Seq<LevelView>, price: i64) -> int
    decreases ls.len(),
{
    if ls.len() == 0 || ls[0].price == price {
        0
    } else {
        1 + find_level(ls.drop_first(), price)
    }
}

/// Position of the first order of `os` with identifier `id`, or `os.len()`.
pub open spec fn find_order(os: Seq<Order>, id: OrderId) -> int
    decreases os.len(),
{
    if os.len() == 0 || os[0].id == id {
        0
    } else {
        1 + find_order(os.drop_first(), id)
    }
}

/// `find_level` and `find_order` land on the first match, or on the end.
pub proof fn lemma_find_bounds(ls: Seq<LevelView>, price: i64, os: Seq<Order>, id: OrderId)
    ensures
        0 <= find_level(ls, price) <= ls.len(),
        find_level(ls, price) < ls.len() ==> ls[find_level(ls, price)].price == price,
        forall|k: int| 0 <= k < find_level(ls, price) ==> (#[trigger] ls[k]).price != price,
        0 <= find_order(os, id) <= os.len(),
        find_order(os, id) < os.len() ==> os[find_order(os, id)].id == id,
        forall|k: int| 0 <= k < find_order(os, id) ==> (#[trigger] os[k]).id != id,
    decreases ls.len() + os.len(),
{
    if ls.len() > 0 && ls[0].price != price {
        lemma_find_bounds(ls.drop_first(), price, Seq::empty(), id);
        assert forall|k: int| 0 <= k < find_level(ls, price) implies (#[trigger] ls[k]).price
            != price by {
            if k > 0 {
                assert(ls[k] == ls.drop_first()[k - 1]);
            }
        }
    }
    if os.len() > 0 && os[0].id != id {
        lemma_find_bounds(Seq::empty(), price, os.drop_first(), id);
        assert forall|k: int| 0 <= k < find_order(os, id) implies (#[trigger] os[k]).id != id by {
            if k > 0 {
                assert(os[k] == os.drop_first()[k - 1]);
            }
        }
    }
}

/// The first level at `price` is where `find_level` lands.
pub proof fn lemma_find_level(ls: Seq<LevelView>, price: i64, i: int)
    requires
        0 <= i <= ls.len(),
        forall|k: int| 0 <= k < i ==> (#[trigger] ls[k]).price != price,
        i < ls.len() ==> ls[i].price == price,
    ensures
        i == find_level(ls, price),
    decreases ls.len(),
{
    if i > 0 {
        assert(ls[0].price != price);
        assert forall|k: int| 0 <= k < i - 1 implies (#[trigger] ls.drop_first()[k]).price
            != price by {
            assert(ls.drop_first()[k] == ls[k + 1]);
        }
        if i < ls.len() {
            assert(ls.drop_first()[i - 1] == ls[i]);
        }
        lemma_find_level(ls.drop_first(), price, i - 1);
    }
}

/// The first order with `id` is where `find_order` lands.
pub proof fn lemma_find_order(os: Seq<Order>, id: OrderId, i: int)
    requires
        0 <= i <= os.len(),
        forall|k: int| 0 <= k < i ==> (#[trigger] os[k]).id != id,
        i < os.len() ==> os[i].id == id,
    ensures
        i == find_order(os, id),
    decreases os.len(),
{
    if i > 0 {
        assert(os[0].id != id);
        assert forall|k: int| 0 <= k < i - 1 implies (#[trigger] os.drop_first()[k]).id != id by {
            assert(os.drop_first()[k] == os[k + 1]);
        }
        if i < os.len() {
            assert(os.drop_first()[i - 1] == os[i]);
        }
        lemma_find_order(os.drop_first(), id, i - 1);
    }
}

/// `a - b`, or zero if that is negative.
pub open spec fn sat_sub(a: u64, b: int) -> u64 {
    if a >= b {
        (a - b) as u64
    } else {
        0
    }
}

/// Remove the first order with identifier `id` from the level at `price`
/// of `ls`, dropping the level if it becomes empty; `None` if there is no
/// such level or order.
pub open spec fn cancel_in_levels(ls: Seq<LevelView>, price: i64, id: OrderId) -> (
    Seq<LevelView>,
    Option<Order>,
) {
    let i = find_level(ls, price);
    if i >= ls.len() {
        (ls, None)
    } else {
        let l = ls[i];
        let j = find_order(l.orders, id);
        if j >= l.orders.len() {
            (ls, None)
        } else {
            let o = l.orders[j];
            let nl = LevelView {
                price: l.price,
                orders: l.orders.remove(j),
                total: sat_sub(l.total, o.rem()),
            };
            if nl.orders.len() == 0 {
                (ls.remove(i), Some(o))
            } else {
                (ls.update(i, nl), Some(o))
            }
        }
    }
}

/// Outcome of cancelling `id`: the identifier is looked up in the index
/// (and its entry removed), then the order is removed from the level the
/// index names.
pub open spec fn cancel_result(book: BookView, id: OrderId) -> (BookView, Option<Order>) {
    if !book.index.contains_key(id.0) {
        (book, None)
    } else {
        let (side, price) = book.index[id.0];
        let b1 = BookView { index: book.index.remove(id.0), ..book };
        let c = cancel_in_levels(book.side_levels(side), price, id);
        (b1.with_side(side, c.0), c.1)
    }
}

/// Removing an order subtracts what remains of it.
pub proof fn lemma_sum_rem_remove(os: Seq<Order>, j: int)
    requires
        0 <= j < os.len(),
    ensures
        sum_rem(os.remove(j)) == sum_rem(os) - os[j].rem(),
{
    assert(os =~= os.take(j) + (seq![os[j]] + os.skip(j + 1)));
    assert(os.remove(j) =~= os.take(j) + os.skip(j + 1));
    lemma_sum_rem_concat(os.take(j), seq![os[j]] + os.skip(j + 1));
    lemma_sum_rem_concat(seq![os[j]], os.skip(j + 1));
    lemma_sum_rem_concat(os.take(j), os.skip(j + 1));
    lemma_sum_rem_push(Seq::<Order>::empty(), os[j]);
    assert(Seq::<Order>::empty().push(os[j]) =~= seq![os[j]]);
}

/// Removing an order keeps a side well formed and never improves its best
/// price.
pub proof fn lemma_cancel_in_levels(ls: Seq<LevelView>, side: Side, price: i64, id: OrderId)
    requires
        levels_wf(ls, side),
    ensures
        levels_wf(cancel_in_levels(ls, price, id).0, side),
        cancel_in_levels(ls, price, id).0.len() > 0 ==> ls.len() > 0 && !better(
            side,
            cancel_in_levels(ls, price, id).0[0].price,
            ls[0].price,
        ),
{
    let i = find_level(ls, price);
    let c = cancel_in_levels(ls, price, id);
    lemma_find_bounds(ls, price, Seq::empty(), id);
    if i < ls.len() {
        let l = ls[i];
        assert(level_wf(l, side));
        let j = find_order(l.orders, id);
        lemma_find_bounds(Seq::empty(), price, l.orders, id);
        if j < l.orders.len() {
            let o = l.orders[j];
            lemma_sum_rem_remove(l.orders, j);
            let nl = LevelView {
                price: l.price,
                orders: l.orders.remove(j),
                total: sat_sub(l.total, o.rem()),
            };
            if nl.orders.len() == 0 {
                assert forall|k: int| 0 <= k < c.0.len() implies level_wf(#[trigger] c.0[k], side) by {
                    if k < i {
                        assert(c.0[k] == ls[k]);
                    } else {
                        assert(c.0[k] == ls[k + 1]);
                    }
                }
                assert forall|a: int, b: int| 0 <= a < b < c.0.len() implies better(
                    side,
                    #[trigger] c.0[a].price,
                    #[trigger] c.0[b].price,
                ) by {
                    let a1 = if a < i {
                        a
                    } else {
                        a + 1
                    };
                    let b1 = if b < i {
                        b
                    } else {
                        b + 1
                    };
                    assert(c.0[a] == ls[a1]);
                    assert(c.0[b] == ls[b1]);
                }
                if c.0.len() > 0 {
                    if i == 0 {
                        assert(c.0[0] == ls[1]);
                    } else {
                        assert(c.0[0] == ls[0]);
                    }
                }
            } else {
                assert(level_wf(nl, side)) by {
                    assert forall|k: int| 0 <= k < nl.orders.len() implies {
                        &&& (#[trigger] nl.orders[k]).price == nl.price
                        &&& nl.orders[k].side == side
                        &&& nl.orders[k].filled_quantity < nl.orders[k].quantity
                    } by {
                        if k < j {
                            assert(nl.orders[k] == l.orders[k]);
                        } else {
                            assert(nl.orders[k] == l.orders[k + 1]);
                        }
                    }
                    lemma_sum_rem_nonneg(nl.orders);
                }
                assert forall|k: int| 0 <= k < c.0.len() implies level_wf(#[trigger] c.0[k], side) by {
                    if k != i {
                        assert(c.0[k] == ls[k]);
                    }
                }
                assert forall|a: int, b: int| 0 <= a < b < c.0.len() implies better(
                    side,
                    #[trigger] c.0[a].price,
                    #[trigger] c.0[b].price,
                ) by {
                    assert(c.0[a].price == ls[a].price);
                    assert(c.0[b].price == ls[b].price);
                }
                assert(c.0[0].price == ls[0].price);
            }
        }
    }
}

/// Cancelling keeps a well formed book well formed.
pub proof fn lemma_cancel_wf(book: BookView, id: OrderId)
    requires
        book.wf(),
    ensures
        cancel_result(book, id).0.wf(),
{
    if book.index.contains_key(id.0) {
        let (side, price) = book.index[id.0];
        lemma_cancel_in_levels(book.side_levels(side), side, price, id);
    }
}

// ---------------------------------------------------------------------------
// Expiry and bulk identifier listings
// ---------------------------------------------------------------------------

/// A good-till-date order whose expiry is at or before `now`.
pub open spec fn expired_at(o: Order, now: u64) -> bool {
    match o.time_in_force {
        TimeInForce::GTD { expiry_ns } => expiry_ns <= now,
        _ => false,
    }
}

/// Identifiers of the orders of `os` expired at `now`, in queue order.
pub open spec fn expired_in(os: Seq<Order>, now: u64) -> Seq<OrderId>
    decreases os.len(),
{
    if os.len() == 0 {
        seq![]
    } else if expired_at(os.last(), now) {
        expired_in(os.drop_last(), now).push(os.last().id)
    } else {
        expired_in(os.drop_last(), now)
    }
}

/// Identifiers of the orders of `ls` expired at `now`, best level first.
pub open spec fn expired_levels(ls: Seq<LevelView>, now: u64) -> Seq<OrderId>
    decreases ls.len(),
{
    if ls.len() == 0 {
        seq![]
    } else {
        expired_levels(ls.drop_last(), now) + expired_in(ls.last().orders, now)
    }
}

/// Identifiers of the orders of `os`, in queue order.
pub open spec fn order_ids(os: Seq<Order>) -> Seq<OrderId> {
    Seq::new(os.len(), |i: int| os[i].id)
}

/// Identifiers of all orders of `ls`, best level first, FIFO within a level.
pub open spec fn level_ids(ls: Seq<LevelView>) -> Seq<OrderId>
    decreases ls.len(),
{
    if ls.len() == 0 {
        seq![]
    } else {
        level_ids(ls.drop_last()) + order_ids(ls.last().orders)
    }
}

/// Cancel each identifier of `ids` in turn; returns the final book and the
/// orders that were actually cancelled, in order.
pub open spec fn cancel_seq(book: BookView, ids: Seq<OrderId>) -> (BookView, Seq<Order>)
    decreases ids.len(),
{
    if ids.len() == 0 {
        (book, seq![])
    } else {
        let prev = cancel_seq(book, ids.drop_last());
        let c = cancel_result(prev.0, ids.last());
        match c.1 {
            Some(o) => (c.0, prev.1.push(o)),
            None => (c.0, prev.1),
        }
    }
}

/// Outcome of purging at `now`: every expired order found on the bid side
/// and then on the ask side is cancelled by identifier.
pub open spec fn purge_result(book: BookView, now: u64) -> (BookView, Seq<Order>) {
    cancel_seq(book, expired_levels(book.bids, now) + expired_levels(book.asks, now))
}

/// Cancelling a list of identifiers keeps the book well formed.
pub proof fn lemma_cancel_seq_wf(book: BookView, ids: Seq<OrderId>)
    requires
        book.wf(),
    ensures
        cancel_seq(book, ids).0.wf(),
    decreases ids.len(),
{
    if ids.len() > 0 {
        lemma_cancel_seq_wf(book, ids.drop_last());
        lemma_cancel_wf(cancel_seq(book, ids.drop_last()).0, ids.last());
    }
}

} // verus!
