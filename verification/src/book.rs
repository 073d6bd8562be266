//! Limit order book (LOB) with price-time priority matching.
//!
//! Bid levels are kept best (highest) price first and ask levels best
//! (lowest) price first, each side strictly sorted by price. Within a level
//! the resting orders form a FIFO queue in arrival order, giving strict time
//! priority.

use std::collections::HashMap;
use std::collections::VecDeque;

use vstd::prelude::*;

use crate::book_model::{
    better, better_count, crosses, crossing_liquidity, insert_admissible, insert_result,
    lemma_better_count, lemma_better_count_unique, lemma_insert_wf, lemma_match_result,
    lemma_sum_qty_concat, lemma_sum_qty_single, lemma_sum_rem_first, lemma_sum_rem_nonneg,
    lemma_remove_all_concat, lemma_sum_rem_push, lemma_sweep_level, lemma_sweep_side, lemma_wf_fillable, level_total_at, level_wf,
    levels_fillable, levels_wf, match_result, opposite, remove_all, rest_into, sum_qty,
    sum_rem, sweep_level, sweep_side, taker_limit, BookView, LevelView, after_match,
    matched_taker, fok_blocked, depth_of, lemma_crossing_liquidity_nonneg, lemma_rest_into,
    cancel_in_levels, cancel_result, cancel_seq, expired_at, expired_in, expired_levels,
    find_level, find_order, lemma_cancel_wf, lemma_cancel_seq_wf, lemma_find_bounds,
    lemma_find_level, lemma_find_order, level_ids, order_ids, purge_result, sat_sub,
};
use crate::order::{Order, OrderId, OrderType, Side, TimeInForce};
use crate::cancel_laws::{index_tight, law_cancel_keeps_index_tight, law_cancel_seq_keeps_index_tight};
use crate::index_laws::law_insert_keeps_index_tight;

pub use crate::book_model::Fill;

verus! {

broadcast use vstd::std_specs::hash::group_hash_axioms;

// ---------------------------------------------------------------------------
// Price level
// ---------------------------------------------------------------------------

/// All resting orders at a single price point, in FIFO order.
#[derive(Debug)]
pub struct PriceLevel {
    /// Price of every order in this level, in ticks.
    pub price: i64,
    /// Orders by arrival time (front = oldest = highest priority).
    pub orders: VecDeque<Order>,
    /// Aggregate unexecuted quantity of the orders in this level.
    pub total_quantity: u64,
}

impl View for PriceLevel {
    type V = LevelView;

    open spec fn view(&self) -> LevelView {
        LevelView { price: self.price, orders: self.orders@, total: self.total_quantity }
    }
}

impl PriceLevel {
    /// Create an empty price level at the given tick price.
    pub fn new(price: i64) -> (l: Self)
        ensures
            l@ == (LevelView { price, orders: Seq::empty(), total: 0 }),
    {
        PriceLevel { price, orders: VecDeque::new(), total_quantity: 0 }
    }

    /// Append an order to the back of the FIFO queue.
    pub fn push(&mut self, order: Order)
        requires
            order.filled_quantity <= order.quantity,
            old(self).total_quantity + order.rem() <= u64::MAX,
        ensures
            final(self)@ == (LevelView {
                price: old(self).price,
                orders: old(self)@.orders.push(order),
                total: (old(self).total_quantity + order.rem()) as u64,
            }),
    {
        self.total_quantity = self.total_quantity + order.remaining();
        self.orders.push_back(order);
    }

    /// Returns `true` when no resting orders remain at this level.
    pub fn is_empty(&self) -> (r: bool)
        ensures
            r == (self@.orders.len() == 0),
    {
        self.orders.len() == 0
    }
}

/// Execute fills against one price level on behalf of a taker, oldest
/// maker first, until the taker or the level is exhausted.
fn fill_level(
    level: &mut PriceLevel,
    taker: &mut Order,
    taker_id: OrderId,
    timestamp_ns: u64,
    fills: &mut Vec<Fill>,
    index: &mut HashMap<u64, (Side, i64)>,
)
    requires
        old(level)@.total == sum_rem(old(level)@.orders),
        forall|j: int|
            0 <= j < old(level)@.orders.len() ==> (#[trigger] old(level)@.orders[j]).filled_quantity
                < old(level)@.orders[j].quantity,
    ensures
        ({
            let r = sweep_level(old(level)@.orders, old(taker).rem(), taker_id, timestamp_ns);
            &&& final(level)@ == (LevelView {
                price: old(level).price,
                orders: r.0,
                total: (old(level).total_quantity - sum_qty(r.1)) as u64,
            })
            &&& final(fills)@ == old(fills)@ + r.1
            &&& final(index)@ == remove_all(old(index)@, r.2)
            &&& *final(taker) == Order {
                filled_quantity: (old(taker).filled_quantity + sum_qty(r.1)) as u64,
                ..*old(taker)
            }
        }),
{
    let ghost orig = level.orders@;
    let ghost want0 = taker.rem();
    let ghost full = sweep_level(orig, want0, taker_id, timestamp_ns);
    let ghost old_fills = fills@;
    let ghost old_index = index@;
    let ghost old_taker = *taker;
    let ghost old_total = level.total_quantity;
    let ghost mut added_f: Seq<Fill> = seq![];
    let ghost mut added_ids: Seq<u64> = seq![];
    proof {
        assert(added_f + full.1 =~= full.1);
        assert(added_ids + full.2 =~= full.2);
        assert(old_fills + added_f =~= old_fills);
    }
    loop
        invariant
            level.price == old(level).price,
            level.total_quantity == sum_rem(level.orders@),
            forall|j: int|
                0 <= j < level.orders@.len() ==> (#[trigger] level.orders@[j]).filled_quantity
                    < level.orders@[j].quantity,
            fills@ == old_fills + added_f,
            index@ == remove_all(old_index, added_ids),
            *taker == (Order {
                filled_quantity: (old_taker.filled_quantity + sum_qty(added_f)) as u64,
                ..old_taker
            }),
            old_taker.filled_quantity + sum_qty(added_f) <= u64::MAX,
            sum_qty(added_f) >= 0,
            want0 == old_taker.rem(),
            ({
                let cur = sweep_level(level.orders@, taker.rem(), taker_id, timestamp_ns);
                &&& full.0 == cur.0
                &&& full.1 == added_f + cur.1
                &&& full.2 == added_ids + cur.2
            }),
            old_total - sum_qty(added_f) == level.total_quantity,
        ensures
            sweep_level(level.orders@, taker.rem(), taker_id, timestamp_ns) == (
                level.orders@,
                Seq::<Fill>::empty(),
                Seq::<u64>::empty(),
            ),
        decreases level.orders@.len() + (if taker.filled_quantity < taker.quantity {
            1int
        } else {
            0int
        }),
    {
        if level.orders.len() == 0 {
            break;
        }
        if taker.is_filled() {
            break;
        }
        let maker_rem = level.orders[0].remaining();
        let taker_rem = taker.remaining();
        let trade_qty = if taker_rem < maker_rem {
            taker_rem
        } else {
            maker_rem
        };
        let ghost cur = level.orders@;
        let ghost w = taker.rem();
        let ghost step = sweep_level(cur, w, taker_id, timestamp_ns);
        proof {
            lemma_sum_rem_first(cur);
            lemma_sum_rem_nonneg(cur.drop_first());
        }
        let mut maker = level.orders.pop_front().unwrap();
        let fill_price = maker.price;
        taker.filled_quantity = taker.filled_quantity + trade_qty;
        maker.filled_quantity = maker.filled_quantity + trade_qty;
        level.total_quantity = level.total_quantity - trade_qty;
        let f = Fill {
            maker_id: maker.id,
            taker_id,
            price: fill_price,
            quantity: trade_qty,
            timestamp_ns,
        };
        fills.push(f);
        proof {
            lemma_sum_qty_concat(added_f, seq![f]);
            lemma_sum_qty_single(f);
            assert(added_f.push(f) =~= added_f + seq![f]);
            assert(old_fills + added_f.push(f) =~= old_fills + added_f + seq![f]);
        }
        if maker.is_filled() {
            let _ = index.remove(&maker.id.0);
            proof {
                let rest = sweep_level(cur.drop_first(), w - cur[0].rem(), taker_id, timestamp_ns);
                assert(added_f.push(f) + rest.1 =~= added_f + (seq![f] + rest.1));
                assert(added_ids.push(maker.id.0) + rest.2 =~= added_ids + (seq![maker.id.0]
                    + rest.2));
                assert(added_ids.push(maker.id.0).drop_last() =~= added_ids);
                added_f = added_f.push(f);
                added_ids = added_ids.push(maker.id.0);
                assert(level.orders@ =~= cur.drop_first());
            }
        } else {
            level.orders.push_front(maker);
            proof {
                assert(level.orders@ =~= cur.update(0, maker));
                assert(level.orders@ =~= seq![maker] + cur.drop_first());
                lemma_sum_rem_first(level.orders@);
                assert(level.orders@.drop_first() =~= cur.drop_first());
                assert(added_f.push(f) =~= added_f + step.1);
                added_f = added_f.push(f);
            }
        }
    }
    proof {
        assert(full.1 =~= added_f);
        assert(full.2 =~= added_ids);
    }
}

/// Abstract values of a vector of levels.
pub open spec fn levels_view(v: Seq<PriceLevel>) -> Seq<LevelView> {
    Seq::new(v.len(), |i: int| v[i]@)
}

/// A level at `level_price` is marketable for a taker of `taker_side` with
/// limit `limit`.
fn marketable(taker_side: Side, level_price: i64, limit: i64) -> (r: bool)
    ensures
        r == crosses(taker_side, level_price, limit),
{
    match taker_side {
        Side::Bid => level_price <= limit,
        Side::Ask => level_price >= limit,
    }
}

/// `a` is a strictly better resting price than `b` on `side`.
fn is_better(side: Side, a: i64, b: i64) -> (r: bool)
    ensures
        r == better(side, a, b),
{
    match side {
        Side::Bid => a > b,
        Side::Ask => a < b,
    }
}

/// Match a taker against the opposite-side levels `levels`, best level
/// first, while they cross `limit`; exhausted levels are removed.
fn sweep(
    levels: &mut Vec<PriceLevel>,
    taker: &mut Order,
    fills: &mut Vec<Fill>,
    index: &mut HashMap<u64, (Side, i64)>,
    limit: i64,
)
    requires
        levels_wf(levels_view(old(levels)@), opposite(old(taker).side)),
    ensures
        ({
            let r = sweep_side(
                levels_view(old(levels)@),
                old(taker).rem(),
                old(taker).side,
                limit,
                old(taker).id,
                old(taker).timestamp_ns,
            );
            &&& levels_view(final(levels)@) == r.0
            &&& final(fills)@ == old(fills)@ + r.1
            &&& final(index)@ == remove_all(old(index)@, r.2)
            &&& *final(taker) == Order {
                filled_quantity: (old(taker).filled_quantity + sum_qty(r.1)) as u64,
                ..*old(taker)
            }
        }),
{
    let ghost side = taker.side;
    let ghost opp = opposite(side);
    let ghost full = sweep_side(
        levels_view(levels@),
        taker.rem(),
        side,
        limit,
        taker.id,
        taker.timestamp_ns,
    );
    let ghost old_fills = fills@;
    let ghost old_index = index@;
    let ghost old_taker = *taker;
    let ghost mut added_f: Seq<Fill> = seq![];
    let ghost mut added_ids: Seq<u64> = seq![];
    proof {
        assert(added_f + full.1 =~= full.1);
        assert(added_ids + full.2 =~= full.2);
        assert(old_fills + added_f =~= old_fills);
    }
    loop
        invariant
            levels_wf(levels_view(levels@), opp),
            opp == opposite(side),
            side == old_taker.side,
            fills@ == old_fills + added_f,
            index@ == remove_all(old_index, added_ids),
            *taker == (Order {
                filled_quantity: (old_taker.filled_quantity + sum_qty(added_f)) as u64,
                ..old_taker
            }),
            old_taker.filled_quantity + sum_qty(added_f) <= u64::MAX,
            sum_qty(added_f) >= 0,
            ({
                let cur = sweep_side(
                    levels_view(levels@),
                    taker.rem(),
                    side,
                    limit,
                    old_taker.id,
                    old_taker.timestamp_ns,
                );
                &&& full.0 == cur.0
                &&& full.1 == added_f + cur.1
                &&& full.2 == added_ids + cur.2
            }),
        ensures
            sweep_side(
                levels_view(levels@),
                taker.rem(),
                side,
                limit,
                old_taker.id,
                old_taker.timestamp_ns,
            ) == (levels_view(levels@), Seq::<Fill>::empty(), Seq::<u64>::empty()),
        decreases levels@.len() + (if taker.filled_quantity < taker.quantity {
            1int
        } else {
            0int
        }),
    {
        if levels.len() == 0 {
            break;
        }
        if !marketable(taker.side, levels[0].price, limit) {
            break;
        }
        if taker.is_filled() {
            break;
        }
        let ghost cur = levels_view(levels@);
        let ghost w = taker.rem();
        let ghost step = sweep_side(cur, w, side, limit, old_taker.id, old_taker.timestamp_ns);
        proof {
            assert(cur[0] == levels@[0]@);
            assert(level_wf(cur[0], opp));
            lemma_sweep_side(cur, w, side, limit, old_taker.id, old_taker.timestamp_ns);
        }
        let taker_id = taker.id;
        let ts = taker.timestamp_ns;
        let ghost lvl0 = levels@[0]@;
        let ghost r1 = sweep_level(lvl0.orders, w, taker_id, ts);
        fill_level(&mut levels[0], taker, taker_id, ts, fills, index);
        let ghost q = sum_qty(r1.1);
        let ghost tail = cur.drop_first();
        let ghost rest = sweep_side(tail, w - q, side, limit, taker_id, ts);
        proof {
            lemma_sweep_level(lvl0.orders, w, taker_id, ts);
            lemma_sum_qty_concat(added_f, r1.1);
            lemma_remove_all_concat(old_index, added_ids, r1.2);
            assert(old_fills + added_f + r1.1 =~= old_fills + (added_f + r1.1));
        }
        if levels[0].is_empty() {
            let _ = levels.remove(0);
            proof {
                assert(levels_view(levels@) =~= tail);
                assert(step.0 == rest.0);
                assert(added_f + r1.1 + rest.1 =~= added_f + (r1.1 + rest.1));
                assert(added_ids + r1.2 + rest.2 =~= added_ids + (r1.2 + rest.2));
                assert(levels_wf(tail, opp)) by {
                    assert forall|i: int| 0 <= i < tail.len() implies level_wf(
                        #[trigger] tail[i],
                        opp,
                    ) by {
                        assert(tail[i] == cur[i + 1]);
                    }
                    assert forall|i: int, j: int| 0 <= i < j < tail.len() implies better(
                        opp,
                        #[trigger] tail[i].price,
                        #[trigger] tail[j].price,
                    ) by {
                        assert(tail[i] == cur[i + 1]);
                        assert(tail[j] == cur[j + 1]);
                    }
                }
                added_f = added_f + r1.1;
                added_ids = added_ids + r1.2;
            }
        } else {
            proof {
                // the taker was satisfied by this level
                lemma_sweep_level(lvl0.orders, w, taker_id, ts);
                assert(levels_view(levels@) =~= step.0);
                assert(rest == (tail, Seq::<Fill>::empty(), Seq::<u64>::empty()));
                assert(step.1 =~= r1.1);
                assert(step.2 =~= r1.2);
                assert(added_f + r1.1 + Seq::<Fill>::empty() =~= added_f + r1.1);
                assert(added_ids + r1.2 + Seq::<u64>::empty() =~= added_ids + r1.2);
                added_f = added_f + r1.1;
                added_ids = added_ids + r1.2;
            }
        }
    }
    proof {
        assert(full.1 =~= added_f);
        assert(full.2 =~= added_ids);
    }
}


/// Total resting quantity of the levels at the front of `levels` that cross
/// `limit` for a taker of `taker_side`.
fn crossing_total(levels: &Vec<PriceLevel>, taker_side: Side, limit: i64) -> (r: u64)
    requires
        crossing_liquidity(levels_view(levels@), taker_side, limit) <= u64::MAX,
    ensures
        r == crossing_liquidity(levels_view(levels@), taker_side, limit),
{
    let ghost ls = levels_view(levels@);
    let mut sum: u64 = 0;
    let mut i: usize = 0;
    proof {
        assert(ls.skip(0) =~= ls);
    }
    while i < levels.len() && marketable(taker_side, levels[i].price, limit)
        invariant
            0 <= i <= levels@.len(),
            ls == levels_view(levels@),
            crossing_liquidity(ls, taker_side, limit) <= u64::MAX,
            sum + crossing_liquidity(ls.skip(i as int), taker_side, limit) == crossing_liquidity(
                ls,
                taker_side,
                limit,
            ),
        decreases levels@.len() - i,
    {
        proof {
            assert(ls.skip(i as int)[0] == ls[i as int]);
            assert(ls.skip(i as int).drop_first() =~= ls.skip(i + 1));
            lemma_crossing_liquidity_nonneg(ls.skip(i + 1), taker_side, limit);
        }
        sum = sum + levels[i].total_quantity;
        i = i + 1;
    }
    proof {
        if i < levels@.len() {
            assert(ls.skip(i as int)[0] == ls[i as int]);
        }
    }
    sum
}

/// Total resting quantity of the levels at the front of `levels` that cross
/// `limit` for a taker of `taker_side`, in a width that cannot overflow.
fn crossing_total_wide(levels: &Vec<PriceLevel>, taker_side: Side, limit: i64) -> (r: u128)
    ensures
        r == crossing_liquidity(levels_view(levels@), taker_side, limit),
{
    let ghost ls = levels_view(levels@);
    let mut sum: u128 = 0;
    let mut i: usize = 0;
    proof {
        assert(ls.skip(0) =~= ls);
    }
    while i < levels.len() && marketable(taker_side, levels[i].price, limit)
        invariant
            0 <= i <= levels@.len(),
            ls == levels_view(levels@),
            sum <= i * 0xffff_ffff_ffff_ffffu128,
            sum + crossing_liquidity(ls.skip(i as int), taker_side, limit) == crossing_liquidity(
                ls,
                taker_side,
                limit,
            ),
        decreases levels@.len() - i,
    {
        proof {
            assert(ls.skip(i as int)[0] == ls[i as int]);
            assert(ls.skip(i as int).drop_first() =~= ls.skip(i + 1));
        }
        sum = sum + levels[i].total_quantity as u128;
        i = i + 1;
    }
    proof {
        if i < levels@.len() {
            assert(ls.skip(i as int)[0] == ls[i as int]);
        }
    }
    sum
}

/// Resting quantity of the level at `price` in `levels`, zero if there is
/// no such level.
fn total_at(levels: &Vec<PriceLevel>, side: Side, price: i64) -> (r: u64)
    ensures
        r == level_total_at(levels_view(levels@), side, price),
{
    let ghost ls = levels_view(levels@);
    let mut i: usize = 0;
    while i < levels.len() && is_better(side, levels[i].price, price)
        invariant
            0 <= i <= levels@.len(),
            ls == levels_view(levels@),
            forall|k: int| 0 <= k < i ==> better(side, #[trigger] ls[k].price, price),
        decreases levels@.len() - i,
    {
        i = i + 1;
    }
    proof {
        lemma_better_count_unique(ls, side, price, i as int);
    }
    if i < levels.len() && levels[i].price == price {
        levels[i].total_quantity
    } else {
        0
    }
}

/// Insert `order` at the back of its level in `levels`, creating the level
/// in sorted position if needed.
fn rest_in(levels: &mut Vec<PriceLevel>, order: Order)
    requires
        levels_wf(levels_view(old(levels)@), order.side),
        order.filled_quantity < order.quantity,
        level_total_at(levels_view(old(levels)@), order.side, order.price) + order.rem()
            <= u64::MAX,
    ensures
        levels_view(final(levels)@) == rest_into(levels_view(old(levels)@), order),
{
    let ghost ls = levels_view(levels@);
    let mut i: usize = 0;
    while i < levels.len() && is_better(order.side, levels[i].price, order.price)
        invariant
            0 <= i <= levels@.len(),
            ls == levels_view(levels@),
            forall|k: int| 0 <= k < i ==> better(order.side, #[trigger] ls[k].price, order.price),
        decreases levels@.len() - i,
    {
        i = i + 1;
    }
    proof {
        lemma_better_count_unique(ls, order.side, order.price, i as int);
    }
    if i < levels.len() && levels[i].price == order.price {
        let ghost l = levels@[i as int]@;
        levels[i].push(order);
        proof {
            assert(levels_view(levels@) =~= rest_into(ls, order));
        }
    } else {
        let mut l = PriceLevel::new(order.price);
        l.push(order);
        levels.insert(i, l);
        proof {
            assert(Seq::<Order>::empty().push(order) =~= seq![order]);
            assert(levels_view(levels@) =~= rest_into(ls, order));
        }
    }
}

// ---------------------------------------------------------------------------
// Order book
// ---------------------------------------------------------------------------

/// The two sides of a book and its identifier index, with the operations on
/// them; an [`OrderBook`] holds one and keeps it well formed.
struct BookCore {
    /// Bid levels, highest price first.
    bids: Vec<PriceLevel>,
    /// Ask levels, lowest price first.
    asks: Vec<PriceLevel>,
    /// Order identifier to (side, price) of the level it was rested at.
    order_index: HashMap<u64, (Side, i64)>,
}

impl View for BookCore {
    type V = BookView;

    closed spec fn view(&self) -> BookView {
        BookView {
            bids: levels_view(self.bids@),
            asks: levels_view(self.asks@),
            index: self.order_index@,
        }
    }
}

impl BookCore {
    /// Create a new, empty order book.
    fn new() -> (b: Self)
        ensures
            b@ == (BookView { bids: Seq::empty(), asks: Seq::empty(), index: Map::empty() }),
            b@.wf(),
    {
        let b = BookCore { bids: Vec::new(), asks: Vec::new(), order_index: HashMap::new() };
        proof {
            assert(levels_view(b.bids@) =~= Seq::<LevelView>::empty());
            assert(levels_view(b.asks@) =~= Seq::<LevelView>::empty());
        }
        b
    }

    /// Best bid price (highest) in ticks, or `None` if the bid side is empty.
    fn best_bid(&self) -> (r: Option<i64>)
        ensures
            r == self@.best_bid(),
    {
        if self.bids.len() > 0 {
            Some(self.bids[0].price)
        } else {
            None
        }
    }

    /// Best ask price (lowest) in ticks, or `None` if the ask side is empty.
    fn best_ask(&self) -> (r: Option<i64>)
        ensures
            r == self@.best_ask(),
    {
        if self.asks.len() > 0 {
            Some(self.asks[0].price)
        } else {
            None
        }
    }

    /// Bid-ask spread in ticks, or `None` when either side is empty.
    fn spread(&self) -> (r: Option<i64>)
        requires
            self@.bids.len() > 0 && self@.asks.len() > 0 ==> i64::MIN <= self@.asks[0].price
                - self@.bids[0].price <= i64::MAX,
        ensures
            r == (if self@.bids.len() > 0 && self@.asks.len() > 0 {
                Some((self@.asks[0].price - self@.bids[0].price) as i64)
            } else {
                None
            }),
    {
        match (self.best_ask(), self.best_bid()) {
            (Some(ask), Some(bid)) => Some(ask - bid),
            _ => None,
        }
    }

    /// Up to `levels` price levels on `side` as `(price, quantity)` pairs,
    /// best price first.
    fn depth(&self, side: Side, levels: usize) -> (r: Vec<(i64, u64)>)
        ensures
            r@ == depth_of(self@.side_levels(side), levels as int),
    {
        let ls = match side {
            Side::Bid => &self.bids,
            Side::Ask => &self.asks,
        };
        let mut out: Vec<(i64, u64)> = Vec::new();
        let mut i: usize = 0;
        while i < ls.len() && i < levels
            invariant
                0 <= i <= ls@.len(),
                i <= levels,
                levels_view(ls@) == self@.side_levels(side),
                out@ == depth_of(levels_view(ls@), i as int),
            decreases ls@.len() - i,
        {
            out.push((ls[i].price, ls[i].total_quantity));
            i = i + 1;
            proof {
                assert(out@ =~= depth_of(levels_view(ls@), i as int));
            }
        }
        proof {
            assert(out@ =~= depth_of(levels_view(ls@), levels as int));
        }
        out
    }

    /// Whether the crossing ask liquidity can fill a fill-or-kill bid entirely.
    fn can_fill_bid(&self, order: &Order) -> (r: bool)
        requires
            order.filled_quantity <= order.quantity,
            crossing_liquidity(self@.asks, order.side, taker_limit(*order)) <= u64::MAX,
            order.side == Side::Bid,
        ensures
            r == (crossing_liquidity(self@.asks, order.side, taker_limit(*order)) >= order.rem()),
    {
        let taker_price = match order.order_type {
            OrderType::Market => i64::MAX,
            _ => order.price,
        };
        let available = crossing_total(&self.asks, Side::Bid, taker_price);
        available >= order.remaining()
    }

    /// Whether the crossing bid liquidity can fill a fill-or-kill ask entirely.
    fn can_fill_ask(&self, order: &Order) -> (r: bool)
        requires
            order.filled_quantity <= order.quantity,
            crossing_liquidity(self@.bids, order.side, taker_limit(*order)) <= u64::MAX,
            order.side == Side::Ask,
        ensures
            r == (crossing_liquidity(self@.bids, order.side, taker_limit(*order)) >= order.rem()),
    {
        let taker_price = match order.order_type {
            OrderType::Market => i64::MIN,
            _ => order.price,
        };
        let available = crossing_total(&self.bids, Side::Ask, taker_price);
        available >= order.remaining()
    }

    /// Match an incoming bid against resting asks, lowest ask first.
    fn match_bid(&mut self, taker: &mut Order, fills: &mut Vec<Fill>)
        requires
            old(self)@.wf(),
            old(taker).side == Side::Bid,
            old(taker).time_in_force == TimeInForce::FOK ==> {
                &&& old(taker).filled_quantity <= old(taker).quantity
                &&& crossing_liquidity(old(self)@.asks, Side::Bid, taker_limit(*old(taker)))
                    <= u64::MAX
            },
        ensures
            final(self)@ == after_match(old(self)@, *old(taker)),
            final(fills)@ == old(fills)@ + match_result(old(self)@, *old(taker)).1,
            *final(taker) == matched_taker(old(self)@, *old(taker)),
    {
        if matches!(taker.time_in_force, TimeInForce::FOK) && !self.can_fill_bid(taker) {
            proof {
                assert(fok_blocked(self@, *taker));
                assert(old(fills)@ + Seq::<Fill>::empty() =~= old(fills)@);
                reveal_with_fuel(remove_all, 1);
                assert(self@.with_side(Side::Ask, self@.asks) =~= self@);
            }
            return;
        }
        let taker_price = match taker.order_type {
            OrderType::Market => i64::MAX,
            _ => taker.price,
        };
        sweep(&mut self.asks, taker, fills, &mut self.order_index, taker_price);
    }

    /// Match an incoming ask against resting bids, highest bid first.
    fn match_ask(&mut self, taker: &mut Order, fills: &mut Vec<Fill>)
        requires
            old(self)@.wf(),
            old(taker).side == Side::Ask,
            old(taker).time_in_force == TimeInForce::FOK ==> {
                &&& old(taker).filled_quantity <= old(taker).quantity
                &&& crossing_liquidity(old(self)@.bids, Side::Ask, taker_limit(*old(taker)))
                    <= u64::MAX
            },
        ensures
            final(self)@ == after_match(old(self)@, *old(taker)),
            final(fills)@ == old(fills)@ + match_result(old(self)@, *old(taker)).1,
            *final(taker) == matched_taker(old(self)@, *old(taker)),
    {
        if matches!(taker.time_in_force, TimeInForce::FOK) && !self.can_fill_ask(taker) {
            proof {
                assert(fok_blocked(self@, *taker));
                assert(old(fills)@ + Seq::<Fill>::empty() =~= old(fills)@);
                assert(self@.with_side(Side::Bid, self@.bids) =~= self@);
            }
            return;
        }
        let taker_price = match taker.order_type {
            OrderType::Market => i64::MIN,
            _ => taker.price,
        };
        sweep(&mut self.bids, taker, fills, &mut self.order_index, taker_price);
    }

    /// Place an unfilled remainder onto the resting book.
    fn rest_order(&mut self, order: Order)
        requires
            levels_wf(old(self)@.side_levels(order.side), order.side),
            order.filled_quantity < order.quantity,
            level_total_at(old(self)@.side_levels(order.side), order.side, order.price)
                + order.rem() <= u64::MAX,
        ensures
            final(self)@ == (BookView {
                index: old(self)@.index.insert(order.id.0, (order.side, order.price)),
                ..old(self)@.with_side(
                    order.side,
                    rest_into(old(self)@.side_levels(order.side), order),
                )
            }),
    {
        let _ = self.order_index.insert(order.id.0, (order.side, order.price));
        match order.side {
            Side::Bid => rest_in(&mut self.bids, order),
            Side::Ask => rest_in(&mut self.asks, order),
        }
    }

    /// Whether submitting `order` at `now_ns` keeps every quantity total
    /// within `u64`, as [`Self::insert_with_time`] requires: the crossing
    /// liquidity a fill-or-kill order is checked against, and the level that
    /// a remainder joins.
    fn can_insert(&self, order: &Order, now_ns: u64) -> (r: bool)
        requires
            self@.wf(),
        ensures
            r == insert_admissible(self@, *order, now_ns),
    {
        if let TimeInForce::GTD { expiry_ns } = order.time_in_force {
            if now_ns > 0 && expiry_ns <= now_ns {
                return true;
            }
        }
        let limit = match order.order_type {
            OrderType::Market => match order.side {
                Side::Bid => i64::MAX,
                Side::Ask => i64::MIN,
            },
            _ => order.price,
        };
        let (opp, own) = match order.side {
            Side::Bid => (&self.asks, &self.bids),
            Side::Ask => (&self.bids, &self.asks),
        };
        let avail = crossing_total_wide(opp, order.side, limit);
        let ghost book = self@;
        let ghost o = *order;
        proof {
            assert(levels_view(opp@) == book.side_levels(opposite(o.side)));
            assert(levels_view(own@) == book.side_levels(o.side));
            assert(limit == taker_limit(o));
            lemma_crossing_liquidity_nonneg(levels_view(opp@), o.side, limit);
        }
        let is_fok = match order.time_in_force {
            TimeInForce::FOK => true,
            _ => false,
        };
        if is_fok && (order.filled_quantity > order.quantity || avail > 0xffff_ffff_ffff_ffffu128) {
            return false;
        }
        if order.filled_quantity >= order.quantity {
            proof {
                if !fok_blocked(book, o) {
                    assert(sum_qty(match_result(book, o).1) == 0);
                }
            }
            return true;
        }
        let rem = (order.quantity - order.filled_quantity) as u128;
        let executed: u128 = if is_fok && avail < rem {
            0
        } else if avail < rem {
            avail
        } else {
            rem
        };
        proof {
            assert(book.wf());
            lemma_match_result(book, o);
            if !fok_blocked(book, o) {
                crate::book_laws::lemma_sweep_side_amount(
                    book.side_levels(opposite(o.side)),
                    o.rem(),
                    o.side,
                    limit,
                    o.id,
                    o.timestamp_ns,
                );
            }
            assert(sum_qty(match_result(book, o).1) == executed);
        }
        let rests_after = order.filled_quantity as u128 + executed < order.quantity as u128
            && match order.order_type {
            OrderType::Market => false,
            _ => true,
        } && match order.time_in_force {
            TimeInForce::GTC | TimeInForce::GTD { .. } => true,
            _ => false,
        };
        if !rests_after {
            return true;
        }
        let at = total_at(own, order.side, order.price);
        at as u128 + (rem - executed) <= 0xffff_ffff_ffff_ffffu128
    }

    /// Submit an order for matching and, if a remainder exists and its type
    /// and time in force allow it, rest the remainder on the book. Returns
    /// the fills produced, in execution order.
    fn insert(&mut self, order: Order) -> (fills: Vec<Fill>)
        requires
            old(self)@.wf(),
            insert_admissible(old(self)@, order, 0),
        ensures
            final(self)@ == insert_result(old(self)@, order, 0).0,
            fills@ == insert_result(old(self)@, order, 0).1,
            final(self)@.wf(),
    {
        self.insert_with_time(order, 0)
    }

    /// Variant of [`Self::insert`] that first discards a good-till-date order
    /// whose expiry is at or before `now_ns` (nanoseconds since the epoch;
    /// zero disables the check), returning no fills and leaving the book
    /// unchanged.
    fn insert_with_time(&mut self, order: Order, now_ns: u64) -> (fills: Vec<Fill>)
        requires
            old(self)@.wf(),
            insert_admissible(old(self)@, order, now_ns),
        ensures
            final(self)@ == insert_result(old(self)@, order, now_ns).0,
            fills@ == insert_result(old(self)@, order, now_ns).1,
            final(self)@.wf(),
    {
        proof {
            lemma_insert_wf(self@, order, now_ns);
        }
        if let TimeInForce::GTD { expiry_ns } = order.time_in_force {
            if now_ns > 0 && expiry_ns <= now_ns {
                return Vec::new();
            }
        }
        let ghost book0 = self@;
        let mut order = order;
        let ghost o0 = order;
        let mut fills: Vec<Fill> = Vec::new();
        match order.side {
            Side::Bid => self.match_bid(&mut order, &mut fills),
            Side::Ask => self.match_ask(&mut order, &mut fills),
        }
        proof {
            assert(Seq::<Fill>::empty() + match_result(book0, o0).1 =~= match_result(book0, o0).1);
            lemma_match_result(book0, o0);
        }
        if !order.is_filled() {
            match order.order_type {
                OrderType::Market => {},
                _ => {
                    match order.time_in_force {
                        TimeInForce::IOC | TimeInForce::FOK => {},
                        TimeInForce::GTC | TimeInForce::GTD { .. } => {
                            proof {
                                assert(self@.side_levels(order.side) == book0.side_levels(order.side));
                            }
                            self.rest_order(order);
                        },
                    }
                },
            }
        }
        fills
    }

    /// Cancel an order by its ID: the ID is looked up (and removed) in the
    /// index, then the first order with that ID is removed from the level the
    /// index names, and the level is dropped if it becomes empty. Returns the
    /// cancelled order, or `None` if it was not found.
    fn cancel(&mut self, id: OrderId) -> (r: Option<Order>)
        requires
            old(self)@.wf(),
        ensures
            (final(self)@, r) == cancel_result(old(self)@, id),
            final(self)@.wf(),
    {
        proof {
            lemma_cancel_wf(self@, id);
        }
        let ghost idx0 = self.order_index@;
        let (side, price) = match self.order_index.remove(&id.0) {
            Some(e) => e,
            None => {
                proof {
                    assert(self.order_index@ =~= idx0);
                }
                return None;
            },
        };
        match side {
            Side::Bid => cancel_in(&mut self.bids, price, id),
            Side::Ask => cancel_in(&mut self.asks, price, id),
        }
    }

    /// Remove every resting good-till-date order whose expiry is at or before
    /// `now_ns`. The expired orders are found on the bid side, then the ask
    /// side, and each is cancelled by ID; the cancelled orders are returned.
    fn purge_expired(&mut self, now_ns: u64) -> (expired: Vec<Order>)
        requires
            old(self)@.wf(),
        ensures
            (final(self)@, expired@) == purge_result(old(self)@, now_ns),
            final(self)@.wf(),
    {
        let mut to_remove: Vec<OrderId> = Vec::new();
        collect_expired(&self.bids, now_ns, &mut to_remove);
        collect_expired(&self.asks, now_ns, &mut to_remove);
        let ghost book0 = self@;
        let ghost ids = to_remove@;
        proof {
            assert(ids =~= expired_levels(book0.bids, now_ns) + expired_levels(book0.asks, now_ns));
        }
        let mut expired: Vec<Order> = Vec::new();
        let mut k: usize = 0;
        while k < to_remove.len()
            invariant
                0 <= k <= to_remove@.len(),
                to_remove@ == ids,
                book0.wf(),
                (self@, expired@) == cancel_seq(book0, ids.take(k as int)),
                self@.wf(),
            decreases to_remove@.len() - k,
        {
            let ghost prev = self@;
            proof {
                assert(ids.take(k + 1).drop_last() =~= ids.take(k as int));
            }
            let id = to_remove[k];
            let r = self.cancel(id);
            match r {
                Some(order) => {
                    expired.push(order);
                },
                None => {},
            }
            k = k + 1;
        }
        proof {
            assert(ids.take(to_remove@.len() as int) =~= ids);
        }
        expired
    }

    /// Number of orders resting on the book, both sides together.
    fn order_count(&self) -> (n: u128)
        ensures
            n == level_ids(self@.bids).len() + level_ids(self@.asks).len(),
    {
        let bids = self.all_order_ids_by_side(Side::Bid);
        let asks = self.all_order_ids_by_side(Side::Ask);
        bids.len() as u128 + asks.len() as u128
    }

    /// All resting order IDs of `side`, best level first, FIFO within a level.
    fn all_order_ids_by_side(&self, side: Side) -> (ids: Vec<OrderId>)
        ensures
            ids@ == level_ids(self@.side_levels(side)),
    {
        let ls = match side {
            Side::Bid => &self.bids,
            Side::Ask => &self.asks,
        };
        let ghost v = levels_view(ls@);
        let mut ids: Vec<OrderId> = Vec::new();
        let mut i: usize = 0;
        while i < ls.len()
            invariant
                0 <= i <= ls@.len(),
                v == levels_view(ls@),
                v == self@.side_levels(side),
                ids@ == level_ids(v.take(i as int)),
            decreases ls@.len() - i,
        {
            let ghost base = ids@;
            let level = &ls[i];
            let mut j: usize = 0;
            proof {
                assert(base + order_ids(level@.orders.take(0)) =~= base);
            }
            while j < level.orders.len()
                invariant
                    0 <= j <= level@.orders.len(),
                    ids@ == base + order_ids(level@.orders.take(j as int)),
                decreases level@.orders.len() - j,
            {
                ids.push(level.orders[j].id);
                j = j + 1;
                proof {
                    assert(base + order_ids(level@.orders.take(j as int)) =~= ids@);
                }
            }
            proof {
                assert(level@.orders.take(j as int) =~= level@.orders);
                assert(v.take(i + 1).drop_last() =~= v.take(i as int));
                assert(v.take(i + 1).last() == level@);
            }
            i = i + 1;
        }
        proof {
            assert(v.take(i as int) =~= v);
        }
        ids
    }
}

/// Dual-sided limit order book with price-time priority matching.
pub struct OrderBook {
    core: BookCore,
}

impl View for OrderBook {
    type V = BookView;

    closed spec fn view(&self) -> BookView {
        self.core@
    }
}

impl OrderBook {
    /// Every book is well formed (both sides sorted best first, each level
    /// holding unfilled orders and their total, the book uncrossed), and
    /// every identifier in its index is that of a resting order.
    #[verifier::type_invariant]
    pub(crate) open spec fn well_formed(self) -> bool {
        &&& self@.wf()
        &&& index_tight(self@)
    }

    /// Create a new, empty order book.
    pub fn new() -> (b: Self)
        ensures
            b@ == (BookView { bids: Seq::empty(), asks: Seq::empty(), index: Map::empty() }),
            b@.wf(),
    {
        OrderBook { core: BookCore::new() }
    }

    /// Best bid price (highest) in ticks, or `None` if the bid side is empty.
    pub fn best_bid(&self) -> (r: Option<i64>)
        ensures
            r == self@.best_bid(),
    {
        self.core.best_bid()
    }

    /// Best ask price (lowest) in ticks, or `None` if the ask side is empty.
    pub fn best_ask(&self) -> (r: Option<i64>)
        ensures
            r == self@.best_ask(),
    {
        self.core.best_ask()
    }

    /// Bid-ask spread in ticks, or `None` when either side is empty.
    pub fn spread(&self) -> (r: Option<i64>)
        requires
            self@.bids.len() > 0 && self@.asks.len() > 0 ==> i64::MIN <= self@.asks[0].price
                - self@.bids[0].price <= i64::MAX,
        ensures
            r == (if self@.bids.len() > 0 && self@.asks.len() > 0 {
                Some((self@.asks[0].price - self@.bids[0].price) as i64)
            } else {
                None
            }),
    {
        self.core.spread()
    }

    /// Up to `levels` price levels on `side` as `(price, quantity)` pairs,
    /// best price first.
    pub fn depth(&self, side: Side, levels: usize) -> (r: Vec<(i64, u64)>)
        ensures
            r@ == depth_of(self@.side_levels(side), levels as int),
    {
        self.core.depth(side, levels)
    }

    /// Whether submitting `order` at `now_ns` keeps every quantity total
    /// within `u64`, as [`Self::insert_with_time`] requires.
    pub fn can_insert(&self, order: &Order, now_ns: u64) -> (r: bool)
        ensures
            r == insert_admissible(self@, *order, now_ns),
    {
        proof {
            use_type_invariant(self);
        }
        self.core.can_insert(order, now_ns)
    }

    /// Take the sides and index out, leaving an empty book in their place.
    fn take_core(&mut self) -> (c: BookCore)
        ensures
            c@ == old(self)@,
            c@.wf(),
            index_tight(c@),
    {
        proof {
            use_type_invariant(&*self);
        }
        let mut c = BookCore::new();
        std::mem::swap(&mut c, &mut self.core);
        c
    }

    /// Submit an order for matching and, if a remainder exists and its type
    /// and time in force allow it, rest the remainder on the book. Returns
    /// the fills produced, in execution order.
    pub fn insert(&mut self, order: Order) -> (fills: Vec<Fill>)
        requires
            insert_admissible(old(self)@, order, 0),
        ensures
            final(self)@ == insert_result(old(self)@, order, 0).0,
            fills@ == insert_result(old(self)@, order, 0).1,
            final(self)@.wf(),
    {
        self.insert_with_time(order, 0)
    }

    /// Variant of [`Self::insert`] that first discards a good-till-date order
    /// whose expiry is at or before `now_ns` (nanoseconds since the epoch;
    /// zero disables the check), returning no fills and leaving the book
    /// unchanged.
    pub fn insert_with_time(&mut self, order: Order, now_ns: u64) -> (fills: Vec<Fill>)
        requires
            insert_admissible(old(self)@, order, now_ns),
        ensures
            final(self)@ == insert_result(old(self)@, order, now_ns).0,
            fills@ == insert_result(old(self)@, order, now_ns).1,
            final(self)@.wf(),
    {
        let mut c = self.take_core();
        proof {
            law_insert_keeps_index_tight(c@, order, now_ns);
        }
        let fills = c.insert_with_time(order, now_ns);
        self.core = c;
        fills
    }

    /// Cancel an order by its ID: the ID is looked up (and removed) in the
    /// index, then the first order with that ID is removed from the level the
    /// index names, and the level is dropped if it becomes empty. Returns the
    /// cancelled order, or `None` if it was not found.
    pub fn cancel(&mut self, id: OrderId) -> (r: Option<Order>)
        ensures
            (final(self)@, r) == cancel_result(old(self)@, id),
            final(self)@.wf(),
    {
        let mut c = self.take_core();
        proof {
            law_cancel_keeps_index_tight(c@, id);
        }
        let r = c.cancel(id);
        self.core = c;
        r
    }

    /// Remove every resting good-till-date order whose expiry is at or before
    /// `now_ns`. The expired orders are found on the bid side, then the ask
    /// side, and each is cancelled by ID; the cancelled orders are returned.
    pub fn purge_expired(&mut self, now_ns: u64) -> (expired: Vec<Order>)
        ensures
            (final(self)@, expired@) == purge_result(old(self)@, now_ns),
            final(self)@.wf(),
    {
        let mut c = self.take_core();
        proof {
            law_cancel_seq_keeps_index_tight(
                c@,
                expired_levels(c@.bids, now_ns) + expired_levels(c@.asks, now_ns),
            );
        }
        let expired = c.purge_expired(now_ns);
        self.core = c;
        expired
    }

    /// Number of orders resting on the book, both sides together.
    pub fn order_count(&self) -> (n: u128)
        ensures
            n == level_ids(self@.bids).len() + level_ids(self@.asks).len(),
    {
        self.core.order_count()
    }

    /// All resting order IDs of `side`, best level first, FIFO within a level.
    pub fn all_order_ids_by_side(&self, side: Side) -> (ids: Vec<OrderId>)
        ensures
            ids@ == level_ids(self@.side_levels(side)),
    {
        self.core.all_order_ids_by_side(side)
    }
}

impl Default for OrderBook {
    fn default() -> (b: Self)
        ensures
            b@ == (BookView { bids: Seq::empty(), asks: Seq::empty(), index: Map::empty() }),
            b@.wf(),
    {
        Self::new()
    }
}

/// Append the IDs of the expired orders of `levels` to `out`, best level
/// first, FIFO within a level.
fn collect_expired(levels: &Vec<PriceLevel>, now_ns: u64, out: &mut Vec<OrderId>)
    ensures
        final(out)@ == old(out)@ + expired_levels(levels_view(levels@), now_ns),
{
    let ghost v = levels_view(levels@);
    let ghost start = out@;
    let mut i: usize = 0;
    proof {
        assert(v.take(0) =~= Seq::<LevelView>::empty());
        assert(start + Seq::<OrderId>::empty() =~= start);
    }
    while i < levels.len()
        invariant
            0 <= i <= levels@.len(),
            v == levels_view(levels@),
            out@ == start + expired_levels(v.take(i as int), now_ns),
        decreases levels@.len() - i,
    {
        let ghost base = out@;
        let level = &levels[i];
        let mut j: usize = 0;
        proof {
            assert(level@.orders.take(0) =~= Seq::<Order>::empty());
            assert(base + Seq::<OrderId>::empty() =~= base);
        }
        while j < level.orders.len()
            invariant
                0 <= j <= level@.orders.len(),
                out@ == base + expired_in(level@.orders.take(j as int), now_ns),
            decreases level@.orders.len() - j,
        {
            let ghost os = level@.orders.take(j + 1);
            proof {
                assert(os.drop_last() =~= level@.orders.take(j as int));
                assert(os.last() == level@.orders[j as int]);
            }
            if let TimeInForce::GTD { expiry_ns } = level.orders[j].time_in_force {
                if expiry_ns <= now_ns {
                    out.push(level.orders[j].id);
                }
            }
            j = j + 1;
            proof {
                assert(out@ =~= base + expired_in(os, now_ns));
            }
        }
        proof {
            assert(level@.orders.take(j as int) =~= level@.orders);
            assert(v.take(i + 1).drop_last() =~= v.take(i as int));
            assert(v.take(i + 1).last() == level@);
            assert(out@ =~= start + expired_levels(v.take(i + 1), now_ns));
        }
        i = i + 1;
    }
    proof {
        assert(v.take(i as int) =~= v);
    }
}

/// Remove the first order with identifier `id` from the level at `price`,
/// dropping the level if it becomes empty.
fn cancel_in(levels: &mut Vec<PriceLevel>, price: i64, id: OrderId) -> (r: Option<Order>)
    requires
        levels_fillable(levels_view(old(levels)@)),
    ensures
        (levels_view(final(levels)@), r) == cancel_in_levels(levels_view(old(levels)@), price, id),
{
    let ghost v = levels_view(levels@);
    let mut i: usize = 0;
    while i < levels.len() && levels[i].price != price
        invariant
            0 <= i <= levels@.len(),
            v == levels_view(levels@),
            forall|k: int| 0 <= k < i ==> (#[trigger] v[k]).price != price,
        decreases levels@.len() - i,
    {
        i = i + 1;
    }
    proof {
        lemma_find_level(v, price, i as int);
    }
    if i == levels.len() {
        return None;
    }
    proof {
        assert(v[i as int] == levels@[i as int]@);
    }
    let r = remove_from_level(&mut levels[i], id);
    match r {
        Some(order) => {
            if levels[i].is_empty() {
                let _ = levels.remove(i);
                proof {
                    assert(levels_view(levels@) =~= cancel_in_levels(v, price, id).0);
                }
            } else {
                proof {
                    assert(levels_view(levels@) =~= cancel_in_levels(v, price, id).0);
                }
            }
            Some(order)
        },
        None => {
            proof {
                assert(levels_view(levels@) =~= v);
            }
            None
        },
    }
}

/// Remove the first order with identifier `id` from `level`.
fn remove_from_level(level: &mut PriceLevel, id: OrderId) -> (r: Option<Order>)
    requires
        forall|j: int|
            0 <= j < old(level)@.orders.len() ==> (#[trigger] old(level)@.orders[j]).filled_quantity
                < old(level)@.orders[j].quantity,
    ensures
        ({
            let j = find_order(old(level)@.orders, id);
            if j >= old(level)@.orders.len() {
                r is None && final(level)@ == old(level)@
            } else {
                let o = old(level)@.orders[j];
                &&& r == Some(o)
                &&& final(level)@ == (LevelView {
                    price: old(level).price,
                    orders: old(level)@.orders.remove(j),
                    total: sat_sub(old(level).total_quantity, o.rem()),
                })
            }
        }),
{
    let ghost os = level.orders@;
    let mut pos: usize = 0;
    while pos < level.orders.len() && level.orders[pos].id.0 != id.0
        invariant
            0 <= pos <= level@.orders.len(),
            os == level@.orders,
            forall|k: int| 0 <= k < pos ==> (#[trigger] os[k]).id != id,
        decreases level@.orders.len() - pos,
    {
        pos = pos + 1;
    }
    proof {
        lemma_find_order(os, id, pos as int);
    }
    if pos == level.orders.len() {
        return None;
    }
    let order = level.orders.remove(pos).unwrap();
    level.total_quantity = level.total_quantity.saturating_sub(order.remaining());
    Some(order)
}


} // verus!
