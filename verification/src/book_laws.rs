//! Laws of the order book: what every submission, cancellation and
//! post-only check guarantees, stated over the book model.

use vstd::prelude::*;

use crate::book_model::{
    after_match, cancel_result, crosses, crossing_liquidity, fok_blocked, gtd_expired,
    insert_admissible, insert_result, lemma_match_result, lemma_sum_qty_concat,
    lemma_sum_rem_first, lemma_sum_rem_nonneg, lemma_sweep_level, levels_wf, level_wf,
    match_result, mk_fill, opposite, rests, sum_qty, sum_rem, sum_total, sweep_level, sweep_side,
    taker_limit, BookView, Fill, LevelView, matched_taker, remove_all, rest_into, better_count,
    better, lemma_better_count, lemma_find_level, lemma_find_order, sat_sub,
    lemma_crossing_liquidity_nonneg,
};
use crate::order::{Order, OrderType, Side, TimeInForce};
use crate::post_only::{post_only_verdict, PostOnlyResult};

verus! {

/// All resting orders of `ls`, best level first, FIFO within a level.
pub open spec fn flat_orders(ls: Seq<LevelView>) -> Seq<Order>
    decreases ls.len(),
{
    if ls.len() == 0 {
        seq![]
    } else {
        ls[0].orders + flat_orders(ls.drop_first())
    }
}

/// `min(a, b)`.
pub open spec fn min_int(a: int, b: int) -> int {
    if a <= b {
        a
    } else {
        b
    }
}

proof fn lemma_sweep_level_amount(os: Seq<Order>, want: int, taker_id: crate::order::OrderId, ts: u64)
    requires
        forall|j: int| 0 <= j < os.len() ==> (#[trigger] os[j]).filled_quantity < os[j].quantity,
        want >= 0,
    ensures
        sum_qty(sweep_level(os, want, taker_id, ts).1) == min_int(want, sum_rem(os)),
{
    let r = sweep_level(os, want, taker_id, ts);
    lemma_sweep_level(os, want, taker_id, ts);
    lemma_sum_rem_nonneg(os);
    lemma_sum_rem_nonneg(r.0);
    if r.0.len() > 0 {
        if want > 0 {
            assert(r.0[0].filled_quantity < r.0[0].quantity);
            lemma_sum_rem_first(r.0);
            lemma_sum_rem_nonneg(r.0.drop_first());
        }
    }
}

/// Dropping the best level keeps a side well formed.
pub proof fn lemma_drop_first_wf(ls: Seq<LevelView>, side: Side)
    requires
        levels_wf(ls, side),
        ls.len() > 0,
    ensures
        levels_wf(ls.drop_first(), side),
{
    let tail = ls.drop_first();
    assert forall|i: int| 0 <= i < tail.len() implies level_wf(#[trigger] tail[i], side) by {
        assert(tail[i] == ls[i + 1]);
    }
    assert forall|i: int, j: int| 0 <= i < j < tail.len() implies crate::book_model::better(
        side,
        #[trigger] tail[i].price,
        #[trigger] tail[j].price,
    ) by {
        assert(tail[i] == ls[i + 1]);
        assert(tail[j] == ls[j + 1]);
    }
}

/// A sweep of one side executes exactly the smaller of the quantity wanted
/// and the crossing liquidity: the engine fills as much as it can.
pub proof fn lemma_sweep_side_amount(
    ls: Seq<LevelView>,
    want: int,
    taker_side: Side,
    limit: i64,
    taker_id: crate::order::OrderId,
    ts: u64,
)
    requires
        levels_wf(ls, opposite(taker_side)),
        want >= 0,
    ensures
        sum_qty(sweep_side(ls, want, taker_side, limit, taker_id, ts).1) == min_int(
            want,
            crossing_liquidity(ls, taker_side, limit),
        ),
    decreases ls.len(),
{
    if want > 0 && ls.len() > 0 && crosses(taker_side, ls[0].price, limit) {
        let l = ls[0];
        assert(level_wf(l, opposite(taker_side)));
        let r1 = sweep_level(l.orders, want, taker_id, ts);
        lemma_sweep_level_amount(l.orders, want, taker_id, ts);
        let q = sum_qty(r1.1);
        lemma_drop_first_wf(ls, opposite(taker_side));
        lemma_sweep_side_amount(ls.drop_first(), want - q, taker_side, limit, taker_id, ts);
        lemma_sum_qty_concat(r1.1, sweep_side(ls.drop_first(), want - q, taker_side, limit, taker_id, ts).1);
        crate::book_model::lemma_crossing_liquidity_nonneg(ls.drop_first(), taker_side, limit);
    } else if want == 0 {
        crate::book_model::lemma_crossing_liquidity_nonneg(ls, taker_side, limit);
    }
}

/// Price-time priority: the fills of a sweep consume the resting orders of
/// the swept side in order (best price first, oldest first within a price),
/// each at that maker's own price; every maker but the last one touched is
/// consumed completely.
pub proof fn lemma_sweep_side_priority(
    ls: Seq<LevelView>,
    want: int,
    taker_side: Side,
    limit: i64,
    taker_id: crate::order::OrderId,
    ts: u64,
)
    requires
        levels_wf(ls, opposite(taker_side)),
    ensures
        ({
            let fs = sweep_side(ls, want, taker_side, limit, taker_id, ts).1;
            let flat = flat_orders(ls);
            &&& fs.len() <= flat.len()
            &&& forall|i: int|
                0 <= i < fs.len() ==> #[trigger] fs[i] == mk_fill(flat[i], taker_id, fs[i].quantity, ts)
                    && 0 < fs[i].quantity <= flat[i].rem()
            &&& forall|i: int| 0 <= i < fs.len() - 1 ==> (#[trigger] fs[i]).quantity == flat[i].rem()
        }),
    decreases ls.len(),
{
    let fs = sweep_side(ls, want, taker_side, limit, taker_id, ts).1;
    let flat = flat_orders(ls);
    if want > 0 && ls.len() > 0 && crosses(taker_side, ls[0].price, limit) {
        let l = ls[0];
        assert(level_wf(l, opposite(taker_side)));
        let r1 = sweep_level(l.orders, want, taker_id, ts);
        lemma_sweep_level(l.orders, want, taker_id, ts);
        let q = sum_qty(r1.1);
        let tail = ls.drop_first();
        lemma_drop_first_wf(ls, opposite(taker_side));
        let rest = sweep_side(tail, want - q, taker_side, limit, taker_id, ts);
        lemma_sweep_side_priority(tail, want - q, taker_side, limit, taker_id, ts);
        let ftail = flat_orders(tail);
        assert(flat == l.orders + ftail);
        assert(fs == r1.1 + rest.1);
        if r1.0.len() > 0 {
            // the taker was satisfied inside this level
            assert(rest.1.len() == 0);
            assert(fs =~= r1.1);
            assert forall|i: int| 0 <= i < fs.len() implies #[trigger] fs[i] == mk_fill(
                flat[i],
                taker_id,
                fs[i].quantity,
                ts,
            ) && 0 < fs[i].quantity <= flat[i].rem() by {
                assert(flat[i] == l.orders[i]);
            }
            assert forall|i: int| 0 <= i < fs.len() - 1 implies (#[trigger] fs[i]).quantity
                == flat[i].rem() by {
                assert(flat[i] == l.orders[i]);
                let d = l.orders.len() - r1.0.len();
                assert(i < d);
            }
        } else {
            assert(r1.1.len() == l.orders.len());
            assert forall|i: int| 0 <= i < fs.len() implies #[trigger] fs[i] == mk_fill(
                flat[i],
                taker_id,
                fs[i].quantity,
                ts,
            ) && 0 < fs[i].quantity <= flat[i].rem() by {
                if i < r1.1.len() {
                    assert(flat[i] == l.orders[i]);
                    assert(fs[i] == r1.1[i]);
                } else {
                    assert(flat[i] == ftail[i - r1.1.len()]);
                    assert(fs[i] == rest.1[i - r1.1.len()]);
                }
            }
            assert forall|i: int| 0 <= i < fs.len() - 1 implies (#[trigger] fs[i]).quantity
                == flat[i].rem() by {
                if i < r1.1.len() {
                    assert(flat[i] == l.orders[i]);
                    assert(fs[i] == r1.1[i]);
                } else {
                    assert(flat[i] == ftail[i - r1.1.len()]);
                    assert(fs[i] == rest.1[i - r1.1.len()]);
                }
            }
        }
    }
}

/// Executed quantity: a submission executes exactly the smaller of the
/// order's remaining quantity and the liquidity resting at prices within
/// its limit (nothing if it is a fill-or-kill order that the liquidity does
/// not cover, or an expired good-till-date order); that quantity leaves the
/// opposite side of the book.
pub proof fn law_insert_executes_available_quantity(book: BookView, o: Order, now: u64)
    requires
        book.wf(),
        insert_admissible(book, o, now),
        o.filled_quantity <= o.quantity,
    ensures
        ({
            let (b2, fills) = insert_result(book, o, now);
            let opp = opposite(o.side);
            let avail = crossing_liquidity(book.side_levels(opp), o.side, taker_limit(o));
            &&& sum_qty(fills) == (if gtd_expired(o, now) || fok_blocked(book, o) {
                0
            } else {
                min_int(o.rem(), avail)
            })
            &&& sum_total(book.side_levels(opp)) == sum_total(b2.side_levels(opp)) + sum_qty(fills)
        }),
{
    if !gtd_expired(o, now) {
        lemma_match_result(book, o);
        let opp = opposite(o.side);
        assert(levels_wf(book.side_levels(opp), opp));
        if !fok_blocked(book, o) {
            lemma_sweep_side_amount(
                book.side_levels(opp),
                o.rem(),
                o.side,
                taker_limit(o),
                o.id,
                o.timestamp_ns,
            );
        }
        let b1 = after_match(book, o);
        assert(b1.side_levels(opp) == match_result(book, o).0);
    } else {
        assert(sum_qty(Seq::<Fill>::empty()) == 0);
    }
}

/// Fill-or-kill: a fill-or-kill order either executes completely or not
/// at all.
pub proof fn law_fok_all_or_nothing(book: BookView, o: Order, now: u64)
    requires
        book.wf(),
        insert_admissible(book, o, now),
        o.time_in_force == TimeInForce::FOK,
    ensures
        insert_result(book, o, now).1.len() == 0 || sum_qty(insert_result(book, o, now).1) == o.rem(),
{
    law_insert_executes_available_quantity(book, o, now);
    let fills = insert_result(book, o, now).1;
    if !fok_blocked(book, o) && fills.len() > 0 {
        assert(crossing_liquidity(
            book.side_levels(opposite(o.side)),
            o.side,
            taker_limit(o),
        ) >= o.rem());
    }
}

/// Price-time priority and maker pricing: the fills of a submission are
/// against the resting orders of the opposite side in priority order (best
/// price first, oldest first at a price), each at the maker's own price,
/// within the taker's limit, and for no more than the maker had left; all
/// makers but the last one are filled completely.
pub proof fn law_insert_price_time_priority(book: BookView, o: Order, now: u64)
    requires
        book.wf(),
        insert_admissible(book, o, now),
    ensures
        ({
            let fills = insert_result(book, o, now).1;
            let makers = flat_orders(book.side_levels(opposite(o.side)));
            &&& fills.len() <= makers.len()
            &&& forall|i: int|
                0 <= i < fills.len() ==> {
                    &&& (#[trigger] fills[i]).maker_id == makers[i].id
                    &&& fills[i].price == makers[i].price
                    &&& fills[i].taker_id == o.id
                    &&& fills[i].timestamp_ns == o.timestamp_ns
                    &&& 0 < fills[i].quantity <= makers[i].rem()
                    &&& crosses(o.side, fills[i].price, taker_limit(o))
                }
            &&& forall|i: int| 0 <= i < fills.len() - 1 ==> (#[trigger] fills[i]).quantity == makers[i].rem()
        }),
{
    if !gtd_expired(o, now) && !fok_blocked(book, o) {
        let opp = opposite(o.side);
        assert(levels_wf(book.side_levels(opp), opp));
        lemma_sweep_side_priority(
            book.side_levels(opp),
            o.rem(),
            o.side,
            taker_limit(o),
            o.id,
            o.timestamp_ns,
        );
        lemma_match_result(book, o);
    }
}

/// Immediate-or-cancel, fill-or-kill and market orders never rest: the
/// submitting side of the book is unchanged.
pub proof fn law_non_resting_orders(book: BookView, o: Order, now: u64)
    requires
        book.wf(),
        o.time_in_force == TimeInForce::IOC || o.time_in_force == TimeInForce::FOK
            || o.order_type == OrderType::Market,
    ensures
        insert_result(book, o, now).0.side_levels(o.side) == book.side_levels(o.side),
{
}

/// A post-only verdict of "would rest" is right: submitting the order
/// produces no fills.
pub proof fn law_post_only_rest_means_no_fills(book: BookView, o: Order, now: u64)
    requires
        book.wf(),
        post_only_verdict(o, book) == PostOnlyResult::WouldRest,
    ensures
        insert_result(book, o, now).1.len() == 0,
{
    let opp = book.side_levels(opposite(o.side));
    assert(taker_limit(o) == o.price);
    if opp.len() > 0 {
        assert(!crosses(o.side, opp[0].price, o.price));
    }
}

/// A post-only "would rest" order that may rest (good-till-cancelled or an
/// unexpired good-till-date order with quantity left) rests whole: the
/// book gains exactly that order at the back of its level, indexed under
/// its side and price, and nothing else changes.
pub proof fn law_post_only_rest_rests_whole(book: BookView, o: Order, now: u64)
    requires
        book.wf(),
        post_only_verdict(o, book) == PostOnlyResult::WouldRest,
        o.filled_quantity < o.quantity,
        o.time_in_force is GTC || o.time_in_force is GTD,
        !gtd_expired(o, now),
    ensures
        insert_result(book, o, now).0 == (BookView {
            index: book.index.insert(o.id.0, (o.side, o.price)),
            ..book.with_side(o.side, rest_into(book.side_levels(o.side), o))
        }),
{
    let opp = book.side_levels(opposite(o.side));
    assert(taker_limit(o) == o.price);
    if opp.len() > 0 {
        assert(!crosses(o.side, opp[0].price, o.price));
    }
    let m = match_result(book, o);
    assert(m == (opp, Seq::<Fill>::empty(), Seq::<u64>::empty()));
    assert(sum_qty(m.1) == 0);
    assert(remove_all(book.index, m.2) == book.index);
    assert(matched_taker(book, o) == o);
    assert(book.with_side(opposite(o.side), opp) == book) by {
        match o.side {
            Side::Bid => {},
            Side::Ask => {},
        }
    }
}

/// A post-only verdict of "would match" is right: a submission of the
/// order with quantity left, neither expired nor blocked as fill-or-kill,
/// produces at least one fill.
pub proof fn law_post_only_match_means_fills(book: BookView, o: Order, now: u64)
    requires
        book.wf(),
        insert_admissible(book, o, now),
        post_only_verdict(o, book) == PostOnlyResult::WouldMatch,
        o.filled_quantity < o.quantity,
        !gtd_expired(o, now),
        !fok_blocked(book, o),
    ensures
        insert_result(book, o, now).1.len() > 0,
{
    law_insert_executes_available_quantity(book, o, now);
    let opp = book.side_levels(opposite(o.side));
    assert(opp.len() > 0);
    assert(crosses(o.side, opp[0].price, taker_limit(o)));
    let l = opp[0];
    assert(level_wf(l, opposite(o.side)));
    lemma_sum_rem_first(l.orders);
    lemma_sum_rem_nonneg(l.orders.drop_first());
    lemma_crossing_liquidity_nonneg(opp.drop_first(), o.side, taker_limit(o));
    let fills = insert_result(book, o, now).1;
    if fills.len() == 0 {
        assert(sum_qty(fills) == 0);
    }
}

/// Cancelling undoes a resting submission: a good-till-cancelled limit
/// order that does not cross the book, whose identifier is not in use,
/// rests on the book, and cancelling it gives back the order and the book
/// as it was.
pub proof fn law_cancel_undoes_resting_insert(book: BookView, o: Order)
    requires
        book.wf(),
        o.order_type == OrderType::Limit,
        o.time_in_force == TimeInForce::GTC,
        o.filled_quantity < o.quantity,
        insert_admissible(book, o, 0),
        book.side_levels(opposite(o.side)).len() == 0 || !crosses(
            o.side,
            book.side_levels(opposite(o.side))[0].price,
            o.price,
        ),
        !book.index.contains_key(o.id.0),
        forall|i: int, j: int|
            0 <= i < book.side_levels(o.side).len() && 0 <= j < book.side_levels(
                o.side,
            )[i].orders.len() ==> (#[trigger] book.side_levels(o.side)[i].orders[j]).id != o.id,
    ensures
        insert_result(book, o, 0).1.len() == 0,
        cancel_result(insert_result(book, o, 0).0, o.id) == (book, Some(o)),
{
    let side = o.side;
    let same = book.side_levels(side);
    let opp = book.side_levels(opposite(side));
    assert(taker_limit(o) == o.price);
    assert(match_result(book, o) == (opp, Seq::<Fill>::empty(), Seq::<u64>::empty()));
    let b1 = after_match(book, o);
    assert(b1 =~= book) by {
        assert(remove_all(book.index, Seq::<u64>::empty()) == book.index);
        assert(book.with_side(opposite(side), opp) == book);
    }
    assert(sum_qty(Seq::<Fill>::empty()) == 0);
    assert(rests(o, 0));
    let t = matched_taker(book, o);
    assert(t == o);
    let ls2 = rest_into(same, o);
    let b2 = insert_result(book, o, 0).0;
    assert(b2 == BookView { index: book.index.insert(o.id.0, (side, o.price)), ..book.with_side(side, ls2) });
    assert(b2.index.contains_key(o.id.0));
    assert(b2.index[o.id.0] == (side, o.price));
    assert(b2.index.remove(o.id.0) =~= book.index);
    assert(b2.side_levels(side) == ls2);
    let p = better_count(same, side, o.price);
    lemma_better_count(same, side, o.price);
    assert forall|k: int| 0 <= k < p implies (#[trigger] ls2[k]).price != o.price by {
        assert(ls2[k] == same[k]);
        assert(better(side, same[k].price, o.price));
    }
    if p < same.len() && same[p].price == o.price {
        let l = same[p];
        assert(level_wf(l, side));
        let nl = LevelView { price: l.price, orders: l.orders.push(o), total: (l.total + o.rem()) as u64 };
        assert(ls2[p] == nl);
        lemma_find_level(ls2, o.price, p);
        assert forall|k: int| 0 <= k < l.orders.len() implies (#[trigger] nl.orders[k]).id != o.id by {
            assert(nl.orders[k] == same[p].orders[k]);
        }
        lemma_find_order(nl.orders, o.id, l.orders.len() as int);
        assert(nl.orders.remove(l.orders.len() as int) =~= l.orders);
        let back = LevelView {
            price: nl.price,
            orders: nl.orders.remove(l.orders.len() as int),
            total: sat_sub(nl.total, o.rem()),
        };
        assert(back == l);
        assert(ls2.update(p, back) =~= same);
    } else {
        let nl = LevelView { price: o.price, orders: seq![o], total: o.rem() as u64 };
        assert(ls2 == same.insert(p, nl));
        assert(ls2[p] == nl);
        lemma_find_level(ls2, o.price, p);
        lemma_find_order(nl.orders, o.id, 0);
        assert(nl.orders.remove(0) =~= Seq::<Order>::empty());
        assert(ls2.remove(p) =~= same);
    }
    let c = cancel_result(b2, o.id);
    assert(c.0 =~= book);
}

} // verus!
