//! Laws of cancellation in bulk: what purging expired orders and
//! cancelling a whole side leave on the book, for a book whose identifier
//! index is exact.

use vstd::prelude::*;

use crate::book_model::{
    better, cancel_in_levels, cancel_result, cancel_seq, expired_at, expired_in, expired_levels,
    find_level, find_order, lemma_cancel_in_levels, lemma_cancel_wf, lemma_find_bounds,
    lemma_find_level, lemma_find_order, level_ids, level_wf, levels_wf, order_ids, purge_result,
    BookView, LevelView,
};
use crate::order::{Order, OrderId, Side};

verus! {

/// `o` rests at some level of `ls`.
pub open spec fn rests_in(ls: Seq<LevelView>, o: Order) -> bool {
    exists|i: int, j: int|
        0 <= i < ls.len() && 0 <= j < ls[i].orders.len() && #[trigger] ls[i].orders[j] == o
}

/// `o` rests on the book, on either side.
pub open spec fn rests(book: BookView, o: Order) -> bool {
    rests_in(book.bids, o) || rests_in(book.asks, o)
}

/// No two places of `ls` hold orders with the same identifier.
pub open spec fn unique_ids(ls: Seq<LevelView>) -> bool {
    forall|i1: int, j1: int, i2: int, j2: int|
        #![trigger ls[i1].orders[j1], ls[i2].orders[j2]]
        0 <= i1 < ls.len() && 0 <= j1 < ls[i1].orders.len() && 0 <= i2 < ls.len() && 0 <= j2
            < ls[i2].orders.len() && ls[i1].orders[j1].id == ls[i2].orders[j2].id ==> i1 == i2
            && j1 == j2
}

/// The identifier index is exact: identifiers are unique on each side, and
/// every resting order is indexed under its own side and price.
pub open spec fn indexed(book: BookView) -> bool {
    &&& unique_ids(book.bids)
    &&& unique_ids(book.asks)
    &&& forall|o: Order| #[trigger]
        rests(book, o) ==> book.index.contains_key(o.id.0) && book.index[o.id.0] == (
            o.side,
            o.price,
        )
}

/// The index holds no stale entries: every identifier in it is that of a
/// resting order.
pub open spec fn index_tight(book: BookView) -> bool {
    forall|k: u64| #[trigger]
        book.index.contains_key(k) ==> exists|o: Order| #[trigger] rests(book, o) && o.id.0 == k
}

/// An order resting on one side of a well-formed book carries that side
/// and the price of its level.
proof fn lemma_rests_in_side(ls: Seq<LevelView>, side: Side, o: Order)
    requires
        levels_wf(ls, side),
        rests_in(ls, o),
    ensures
        o.side == side,
        exists|i: int| 0 <= i < ls.len() && #[trigger] ls[i].price == o.price,
{
    let (i, j) = choose|i: int, j: int|
        0 <= i < ls.len() && 0 <= j < ls[i].orders.len() && #[trigger] ls[i].orders[j] == o;
    assert(level_wf(ls[i], side));
    assert(ls[i].orders[j] == o);
}

/// Cancelling `e` at `price` in one side: either nothing happens (and no
/// order with identifier `e` rests at that price), or the order with that
/// identifier is taken out and every other order stays.
proof fn lemma_cancel_levels_members(ls: Seq<LevelView>, side: Side, price: i64, e: OrderId)
    requires
        levels_wf(ls, side),
        unique_ids(ls),
    ensures
        ({
            let (ls2, r) = cancel_in_levels(ls, price, e);
            &&& levels_wf(ls2, side)
            &&& unique_ids(ls2)
            &&& r is None ==> ls2 == ls
            &&& r is None ==> forall|o: Order|
                rests_in(ls, o) && o.id == e ==> o.price != price
            &&& r matches Some(x) ==> {
                &&& rests_in(ls, x)
                &&& x.id == e
                &&& forall|o: Order| #[trigger]
                    rests_in(ls2, o) <==> rests_in(ls, o) && o.id != e
            }
        }),
{
    lemma_cancel_in_levels(ls, side, price, e);
    let i = find_level(ls, price);
    lemma_find_bounds(ls, price, Seq::empty(), e);
    let (ls2, r) = cancel_in_levels(ls, price, e);
    if i >= ls.len() {
        assert forall|o: Order| rests_in(ls, o) && o.id == e implies o.price != price by {
            let (a, b) = choose|a: int, b: int|
                0 <= a < ls.len() && 0 <= b < ls[a].orders.len() && #[trigger] ls[a].orders[b] == o;
            assert(level_wf(ls[a], side));
            assert(ls[a].price != price);
        }
    } else {
        let l = ls[i];
        let j = find_order(l.orders, e);
        lemma_find_bounds(Seq::empty(), price, l.orders, e);
        if j >= l.orders.len() {
            assert forall|o: Order| rests_in(ls, o) && o.id == e implies o.price != price by {
                let (a, b) = choose|a: int, b: int|
                    0 <= a < ls.len() && 0 <= b < ls[a].orders.len() && #[trigger] ls[a].orders[b]
                        == o;
                assert(level_wf(ls[a], side));
                if a == i {
                    assert(l.orders[b].id != e);
                } else {
                    assert(ls[a].price != ls[i].price) by {
                        if a < i {
                            assert(better(side, ls[a].price, ls[i].price));
                        } else {
                            assert(better(side, ls[i].price, ls[a].price));
                        }
                    }
                }
            }
        } else {
            let x = l.orders[j];
            assert(ls[i].orders[j] == x);
            let nos = l.orders.remove(j);
            let removed = nos.len() == 0;
            // Where each place of the new side was in the old one.
            assert forall|i2: int, j2: int|
                0 <= i2 < ls2.len() && 0 <= j2 < ls2[i2].orders.len() implies {
                let i1 = if removed && i2 >= i {
                    i2 + 1
                } else {
                    i2
                };
                let j1 = if !removed && i2 == i && j2 >= j {
                    j2 + 1
                } else {
                    j2
                };
                &&& 0 <= i1 < ls.len()
                &&& 0 <= j1 < ls[i1].orders.len()
                &&& #[trigger] ls2[i2].orders[j2] == ls[i1].orders[j1]
                &&& (i1 != i || j1 != j)
            } by {
                if removed {
                    assert(l.orders.len() == 1);
                } else if i2 == i {
                    assert(ls2[i2].orders == nos);
                }
            }
            assert forall|o: Order| #[trigger] rests_in(ls2, o) <==> rests_in(ls, o) && o.id != e by {
                if rests_in(ls2, o) {
                    let (a, b) = choose|a: int, b: int|
                        0 <= a < ls2.len() && 0 <= b < ls2[a].orders.len() && #[trigger] ls2[a].orders[b]
                            == o;
                    let a1 = if removed && a >= i {
                        a + 1
                    } else {
                        a
                    };
                    let b1 = if !removed && a == i && b >= j {
                        b + 1
                    } else {
                        b
                    };
                    assert(ls2[a].orders[b] == ls[a1].orders[b1]);
                    assert(rests_in(ls, o));
                    if o.id == e {
                        assert(ls[a1].orders[b1].id == ls[i].orders[j].id);
                    }
                }
                if rests_in(ls, o) && o.id != e {
                    let (a, b) = choose|a: int, b: int|
                        0 <= a < ls.len() && 0 <= b < ls[a].orders.len() && #[trigger] ls[a].orders[b]
                            == o;
                    if removed {
                        assert(a != i) by {
                            if a == i {
                                assert(l.orders.len() == 1);
                                assert(b == j);
                            }
                        }
                        let a2 = if a > i {
                            a - 1
                        } else {
                            a
                        };
                        assert(ls2[a2] == ls[a]);
                        assert(ls2[a2].orders[b] == o);
                    } else if a == i {
                        assert(b != j);
                        let b2 = if b > j {
                            b - 1
                        } else {
                            b
                        };
                        assert(ls2[a].orders == nos);
                        assert(nos[b2] == o);
                        assert(ls2[a].orders[b2] == o);
                    } else {
                        assert(ls2[a] == ls[a]);
                        assert(ls2[a].orders[b] == o);
                    }
                }
            }
            assert(unique_ids(ls2)) by {
                assert forall|i1: int, j1: int, i2: int, j2: int|
                    #![trigger ls2[i1].orders[j1], ls2[i2].orders[j2]]
                    0 <= i1 < ls2.len() && 0 <= j1 < ls2[i1].orders.len() && 0 <= i2 < ls2.len()
                        && 0 <= j2 < ls2[i2].orders.len() && ls2[i1].orders[j1].id
                        == ls2[i2].orders[j2].id implies i1 == i2 && j1 == j2 by {
                    let a1 = if removed && i1 >= i {
                        i1 + 1
                    } else {
                        i1
                    };
                    let b1 = if !removed && i1 == i && j1 >= j {
                        j1 + 1
                    } else {
                        j1
                    };
                    let a2 = if removed && i2 >= i {
                        i2 + 1
                    } else {
                        i2
                    };
                    let b2 = if !removed && i2 == i && j2 >= j {
                        j2 + 1
                    } else {
                        j2
                    };
                    assert(ls2[i1].orders[j1] == ls[a1].orders[b1]);
                    assert(ls2[i2].orders[j2] == ls[a2].orders[b2]);
                }
            }
        }
    }
}

/// Cancelling `e` at `price` in one side only takes out an order with
/// identifier `e`: every order left was there, and every order with another
/// identifier stays.
proof fn lemma_cancel_levels_keeps(ls: Seq<LevelView>, price: i64, e: OrderId)
    ensures
        forall|o: Order| #[trigger]
            rests_in(cancel_in_levels(ls, price, e).0, o) ==> rests_in(ls, o),
        forall|o: Order|
            rests_in(ls, o) && o.id != e ==> #[trigger] rests_in(
                cancel_in_levels(ls, price, e).0,
                o,
            ),
{
    let ls2 = cancel_in_levels(ls, price, e).0;
    let i = find_level(ls, price);
    lemma_find_bounds(ls, price, Seq::empty(), e);
    if i < ls.len() {
        let l = ls[i];
        let j = find_order(l.orders, e);
        lemma_find_bounds(Seq::empty(), price, l.orders, e);
        if j < l.orders.len() {
            let rest = l.orders.remove(j);
            let gone = rest.len() == 0;
            assert(ls2[i].orders == rest || gone);
            assert forall|o: Order| #[trigger] rests_in(ls2, o) implies rests_in(ls, o) by {
                let (a, b) = choose|a: int, b: int|
                    0 <= a < ls2.len() && 0 <= b < ls2[a].orders.len() && #[trigger] ls2[a].orders[b]
                        == o;
                if gone {
                    if a < i {
                        assert(ls[a].orders[b] == o);
                    } else {
                        assert(ls2[a] == ls[a + 1]);
                        assert(ls[a + 1].orders[b] == o);
                    }
                } else if a != i {
                    assert(ls[a].orders[b] == o);
                } else if b < j {
                    assert(ls[i].orders[b] == o);
                } else {
                    assert(ls[i].orders[b + 1] == o);
                }
            }
            assert forall|o: Order| rests_in(ls, o) && o.id != e implies #[trigger] rests_in(
                ls2,
                o,
            ) by {
                let (a, b) = choose|a: int, b: int|
                    0 <= a < ls.len() && 0 <= b < ls[a].orders.len() && #[trigger] ls[a].orders[b]
                        == o;
                if a == i {
                    assert(b != j);
                    assert(!gone);
                    if b < j {
                        assert(ls2[i].orders[b] == o);
                    } else {
                        assert(ls2[i].orders[b - 1] == o);
                    }
                } else if gone {
                    if a < i {
                        assert(ls2[a].orders[b] == o);
                    } else {
                        assert(ls2[a - 1] == ls[a]);
                        assert(ls2[a - 1].orders[b] == o);
                    }
                } else {
                    assert(ls2[a].orders[b] == o);
                }
            }
        }
    }
}

/// Cancelling one identifier takes out at most an order with that
/// identifier, and drops its index entry; an index free of stale entries
/// stays free of them.
pub proof fn law_cancel_keeps_index_tight(book: BookView, e: OrderId)
    ensures
        ({
            let b2 = cancel_result(book, e).0;
            &&& forall|o: Order| #[trigger] rests(b2, o) ==> rests(book, o)
            &&& forall|o: Order| rests(book, o) && o.id != e ==> #[trigger] rests(b2, o)
            &&& forall|k: u64| #[trigger]
                b2.index.contains_key(k) <==> book.index.contains_key(k) && k != e.0
            &&& index_tight(book) ==> index_tight(b2)
        }),
{
    let b2 = cancel_result(book, e).0;
    if book.index.contains_key(e.0) {
        let (side, price) = book.index[e.0];
        let ls = book.side_levels(side);
        lemma_cancel_levels_keeps(ls, price, e);
        let ls2 = cancel_in_levels(ls, price, e).0;
        assert(b2.side_levels(side) == ls2);
        assert(b2.index == book.index.remove(e.0));
        assert forall|o: Order| #[trigger] rests(b2, o) implies rests(book, o) by {
            match side {
                Side::Bid => {
                    if rests_in(b2.bids, o) {
                        assert(rests_in(ls2, o));
                    }
                },
                Side::Ask => {
                    if rests_in(b2.asks, o) {
                        assert(rests_in(ls2, o));
                    }
                },
            }
        }
        assert forall|o: Order| rests(book, o) && o.id != e implies #[trigger] rests(b2, o) by {
            match side {
                Side::Bid => {
                    if rests_in(book.bids, o) {
                        assert(rests_in(ls2, o));
                    }
                },
                Side::Ask => {
                    if rests_in(book.asks, o) {
                        assert(rests_in(ls2, o));
                    }
                },
            }
        }
    }
    if index_tight(book) {
        assert forall|k: u64| #[trigger] b2.index.contains_key(k) implies exists|o: Order|
            #[trigger] rests(b2, o) && o.id.0 == k by {
            let x = choose|x: Order| #[trigger] rests(book, x) && x.id.0 == k;
            assert(x.id != e);
            assert(rests(b2, x));
        }
    }
}

/// Cancelling a list of identifiers in turn only takes out orders, drops
/// the index entries of those identifiers and keeps every other entry; an
/// index free of stale entries stays free of them.
pub proof fn law_cancel_seq_keeps_index_tight(book: BookView, ids: Seq<OrderId>)
    ensures
        ({
            let b2 = cancel_seq(book, ids).0;
            &&& forall|o: Order| #[trigger] rests(b2, o) ==> rests(book, o)
            &&& forall|k: u64| #[trigger]
                b2.index.contains_key(k) <==> book.index.contains_key(k) && forall|i: int|
                    0 <= i < ids.len() ==> (#[trigger] ids[i]).0 != k
            &&& index_tight(book) ==> index_tight(b2)
        }),
    decreases ids.len(),
{
    if ids.len() > 0 {
        let ids2 = ids.drop_last();
        let e = ids.last();
        law_cancel_seq_keeps_index_tight(book, ids2);
        let prev = cancel_seq(book, ids2).0;
        law_cancel_keeps_index_tight(prev, e);
        let b2 = cancel_seq(book, ids).0;
        assert(b2 == cancel_result(prev, e).0);
        assert forall|k: u64| #[trigger] b2.index.contains_key(k) <==> book.index.contains_key(k)
            && forall|i: int| 0 <= i < ids.len() ==> (#[trigger] ids[i]).0 != k by {
            if b2.index.contains_key(k) {
                assert forall|i: int| 0 <= i < ids.len() implies (#[trigger] ids[i]).0 != k by {
                    if i < ids2.len() {
                        assert(ids2[i] == ids[i]);
                    }
                }
            }
            if book.index.contains_key(k) && forall|i: int|
                0 <= i < ids.len() ==> (#[trigger] ids[i]).0 != k {
                assert forall|i: int| 0 <= i < ids2.len() implies (#[trigger] ids2[i]).0 != k by {
                    assert(ids[i] == ids2[i]);
                }
                assert(ids[ids.len() - 1] == e);
            }
        }
    }
}

/// Cancelling identifiers none of which is in the index changes nothing
/// and cancels nothing.
proof fn lemma_cancel_seq_unindexed(book: BookView, ids: Seq<OrderId>)
    requires
        forall|i: int| 0 <= i < ids.len() ==> !book.index.contains_key((#[trigger] ids[i]).0),
    ensures
        cancel_seq(book, ids) == (book, Seq::<Order>::empty()),
    decreases ids.len(),
{
    if ids.len() > 0 {
        let ids2 = ids.drop_last();
        assert forall|i: int| 0 <= i < ids2.len() implies !book.index.contains_key(
            (#[trigger] ids2[i]).0,
        ) by {
            assert(ids[i] == ids2[i]);
        }
        lemma_cancel_seq_unindexed(book, ids2);
        assert(!book.index.contains_key(ids[ids.len() - 1].0));
    }
}

/// Cancelling one identifier on a book with an exact index takes out the
/// order with that identifier, if one rests, and nothing else; the index
/// stays exact.
pub proof fn law_cancel_takes_out_only_that_order(book: BookView, e: OrderId)
    requires
        book.wf(),
        indexed(book),
    ensures
        ({
            let (b2, r) = cancel_result(book, e);
            &&& b2.wf()
            &&& indexed(b2)
            &&& forall|o: Order| #[trigger] rests(b2, o) <==> rests(book, o) && o.id != e
            &&& r matches Some(x) ==> rests(book, x) && x.id == e
            &&& forall|o: Order| rests(book, o) && o.id == e ==> r == Some(o)
        }),
{
    lemma_cancel_wf(book, e);
    let (b2, r) = cancel_result(book, e);
    if !book.index.contains_key(e.0) {
        assert forall|o: Order| #[trigger] rests(b2, o) <==> rests(book, o) && o.id != e by {
            if rests(book, o) {
                assert(book.index.contains_key(o.id.0));
            }
        }
    } else {
        let (side, price) = book.index[e.0];
        let ls = book.side_levels(side);
        let other = book.side_levels(crate::book_model::opposite(side));
        lemma_cancel_levels_members(ls, side, price, e);
        let (ls2, r2) = cancel_in_levels(ls, price, e);
        assert(r == r2);
        assert(b2.side_levels(side) == ls2);
        assert(b2.side_levels(crate::book_model::opposite(side)) == other);
        assert(b2.index == book.index.remove(e.0));
        // An order with identifier `e` can only rest on `side` at `price`.
        assert forall|o: Order| rests(book, o) && o.id == e implies rests_in(ls, o) && o.price
            == price by {
            assert(book.index[o.id.0] == (o.side, o.price));
            if rests_in(book.bids, o) {
                lemma_rests_in_side(book.bids, Side::Bid, o);
            } else {
                lemma_rests_in_side(book.asks, Side::Ask, o);
            }
        }
        assert forall|o: Order| rests(book, o) <==> rests_in(ls, o) || rests_in(other, o) by {
            match side {
                Side::Bid => {},
                Side::Ask => {},
            }
        }
        assert forall|o: Order| rests(b2, o) <==> rests_in(ls2, o) || rests_in(other, o) by {
            match side {
                Side::Bid => {},
                Side::Ask => {},
            }
        }
        match r2 {
            None => {
                assert forall|o: Order| #[trigger] rests(b2, o) <==> rests(book, o) && o.id != e by {
                }
            },
            Some(x) => {
                assert forall|o: Order| #[trigger] rests(b2, o) <==> rests(book, o) && o.id != e by {
                    if rests_in(other, o) && o.id == e {
                        assert(rests(book, o));
                    }
                }
                assert forall|o: Order| rests(book, o) && o.id == e implies r == Some(o) by {
                    assert(rests_in(ls, o));
                    let (a, b) = choose|a: int, b: int|
                        0 <= a < ls.len() && 0 <= b < ls[a].orders.len() && #[trigger] ls[a].orders[b]
                            == o;
                    let (c, d) = choose|c: int, d: int|
                        0 <= c < ls.len() && 0 <= d < ls[c].orders.len() && #[trigger] ls[c].orders[d]
                            == x;
                    assert(ls[a].orders[b].id == ls[c].orders[d].id);
                    match side {
                        Side::Bid => assert(unique_ids(book.bids)),
                        Side::Ask => assert(unique_ids(book.asks)),
                    }
                }
            },
        }
        assert(unique_ids(b2.bids) && unique_ids(b2.asks)) by {
            match side {
                Side::Bid => {},
                Side::Ask => {},
            }
        }
        assert forall|o: Order| #[trigger] rests(b2, o) implies b2.index.contains_key(o.id.0)
            && b2.index[o.id.0] == (o.side, o.price) by {
            assert(rests(book, o) && o.id != e);
            assert(o.id.0 != e.0);
        }
    }
}

/// Cancelling a list of identifiers in turn on a book with an exact index
/// takes out exactly the resting orders with those identifiers and returns
/// them; the index stays exact.
pub proof fn lemma_cancel_seq_members(book: BookView, ids: Seq<OrderId>)
    requires
        book.wf(),
        indexed(book),
    ensures
        ({
            let (b2, out) = cancel_seq(book, ids);
            &&& b2.wf()
            &&& indexed(b2)
            &&& forall|o: Order| #[trigger]
                rests(b2, o) <==> rests(book, o) && !ids.contains(o.id)
            &&& forall|o: Order| #[trigger]
                out.contains(o) <==> rests(book, o) && ids.contains(o.id)
        }),
    decreases ids.len(),
{
    if ids.len() == 0 {
        let (b2, out) = cancel_seq(book, ids);
        assert forall|o: Order| #[trigger] out.contains(o) <==> rests(book, o) && ids.contains(
            o.id,
        ) by {
            if out.contains(o) {
                let i = choose|i: int| 0 <= i < out.len() && out[i] == o;
            }
        }
    } else {
        let ids2 = ids.drop_last();
        let e = ids.last();
        lemma_cancel_seq_members(book, ids2);
        let prev = cancel_seq(book, ids2);
        law_cancel_takes_out_only_that_order(prev.0, e);
        let c = cancel_result(prev.0, e);
        let (b2, out) = cancel_seq(book, ids);
        assert(b2 == c.0);
        assert forall|x: OrderId| ids.contains(x) <==> ids2.contains(x) || x == e by {
            if ids.contains(x) {
                let i = choose|i: int| 0 <= i < ids.len() && ids[i] == x;
                if i < ids.len() - 1 {
                    assert(ids2[i] == x);
                }
            }
            if ids2.contains(x) {
                let i = choose|i: int| 0 <= i < ids2.len() && ids2[i] == x;
                assert(ids[i] == x);
            }
            if x == e {
                assert(ids[ids.len() - 1] == x);
            }
        }
        assert forall|o: Order| #[trigger] rests(b2, o) <==> rests(book, o) && !ids.contains(o.id)
            by {
            assert(rests(b2, o) <==> rests(prev.0, o) && o.id != e);
            assert(rests(prev.0, o) <==> rests(book, o) && !ids2.contains(o.id));
        }
        assert forall|o: Order| #[trigger] out.contains(o) <==> rests(book, o) && ids.contains(o.id)
            by {
            assert(prev.1.contains(o) <==> rests(book, o) && ids2.contains(o.id));
            match c.1 {
                Some(x) => {
                    assert(out == prev.1.push(x));
                    if out.contains(o) {
                        let i = choose|i: int| 0 <= i < out.len() && out[i] == o;
                        if i < prev.1.len() {
                            assert(prev.1[i] == o);
                            assert(prev.1.contains(o));
                        } else {
                            assert(o == x);
                            assert(rests(prev.0, x));
                        }
                    }
                    if rests(book, o) && ids.contains(o.id) {
                        if ids2.contains(o.id) {
                            let i = choose|i: int| 0 <= i < prev.1.len() && prev.1[i] == o;
                            assert(out[i] == o);
                        } else {
                            assert(rests(prev.0, o));
                            assert(c.1 == Some(o));
                            assert(out[out.len() - 1] == o);
                        }
                    }
                },
                None => {
                    assert(out == prev.1);
                    if rests(book, o) && ids.contains(o.id) && !ids2.contains(o.id) {
                        assert(rests(prev.0, o));
                        assert(c.1 == Some(o));
                    }
                },
            }
        }
    }
}

/// The expired identifiers listed for `os` are those of its expired orders.
proof fn lemma_expired_in(os: Seq<Order>, now: u64)
    ensures
        forall|x: OrderId| #[trigger]
            expired_in(os, now).contains(x) <==> exists|j: int|
                0 <= j < os.len() && #[trigger] os[j].id == x && expired_at(os[j], now),
    decreases os.len(),
{
    if os.len() > 0 {
        let os2 = os.drop_last();
        lemma_expired_in(os2, now);
        let e2 = expired_in(os2, now);
        let e = expired_in(os, now);
        assert forall|x: OrderId| #[trigger] e.contains(x) <==> exists|j: int|
            0 <= j < os.len() && #[trigger] os[j].id == x && expired_at(os[j], now) by {
            if e.contains(x) {
                let i = choose|i: int| 0 <= i < e.len() && e[i] == x;
                if i < e2.len() {
                    assert(e2.contains(x));
                    let j = choose|j: int|
                        0 <= j < os2.len() && #[trigger] os2[j].id == x && expired_at(os2[j], now);
                    assert(os[j] == os2[j]);
                } else {
                    assert(os[os.len() - 1].id == x);
                }
            }
            if exists|j: int| 0 <= j < os.len() && #[trigger] os[j].id == x && expired_at(os[j], now) {
                let j = choose|j: int|
                    0 <= j < os.len() && #[trigger] os[j].id == x && expired_at(os[j], now);
                if j < os.len() - 1 {
                    assert(os2[j] == os[j]);
                    assert(e2.contains(x));
                    let i = choose|i: int| 0 <= i < e2.len() && e2[i] == x;
                    assert(e[i] == x);
                } else {
                    assert(e[e.len() - 1] == x);
                }
            }
        }
    }
}

/// The expired identifiers listed for `ls` are those of its expired orders.
proof fn lemma_expired_levels(ls: Seq<LevelView>, now: u64)
    ensures
        forall|x: OrderId| #[trigger]
            expired_levels(ls, now).contains(x) <==> exists|i: int, j: int|
                0 <= i < ls.len() && 0 <= j < ls[i].orders.len() && #[trigger] ls[i].orders[j].id
                    == x && expired_at(ls[i].orders[j], now),
    decreases ls.len(),
{
    if ls.len() > 0 {
        let ls2 = ls.drop_last();
        lemma_expired_levels(ls2, now);
        let last = ls.last();
        lemma_expired_in(last.orders, now);
        let a = expired_levels(ls2, now);
        let b = expired_in(last.orders, now);
        let e = expired_levels(ls, now);
        assert(e == a + b);
        assert forall|x: OrderId| #[trigger] e.contains(x) <==> exists|i: int, j: int|
            0 <= i < ls.len() && 0 <= j < ls[i].orders.len() && #[trigger] ls[i].orders[j].id == x
                && expired_at(ls[i].orders[j], now) by {
            if e.contains(x) {
                let k = choose|k: int| 0 <= k < e.len() && e[k] == x;
                if k < a.len() {
                    assert(a[k] == x);
                    assert(a.contains(x));
                    let (i, j) = choose|i: int, j: int|
                        0 <= i < ls2.len() && 0 <= j < ls2[i].orders.len()
                            && #[trigger] ls2[i].orders[j].id == x && expired_at(ls2[i].orders[j], now);
                    assert(ls[i] == ls2[i]);
                    assert(ls[i].orders[j].id == x);
                } else {
                    assert(b[k - a.len()] == x);
                    assert(b.contains(x));
                    let j = choose|j: int|
                        0 <= j < last.orders.len() && #[trigger] last.orders[j].id == x
                            && expired_at(last.orders[j], now);
                    assert(ls[ls.len() - 1].orders[j].id == x);
                }
            }
            if exists|i: int, j: int|
                0 <= i < ls.len() && 0 <= j < ls[i].orders.len() && #[trigger] ls[i].orders[j].id
                    == x && expired_at(ls[i].orders[j], now) {
                let (i, j) = choose|i: int, j: int|
                    0 <= i < ls.len() && 0 <= j < ls[i].orders.len() && #[trigger] ls[i].orders[j].id
                        == x && expired_at(ls[i].orders[j], now);
                if i < ls.len() - 1 {
                    assert(ls2[i] == ls[i]);
                    assert(ls2[i].orders[j].id == x);
                    assert(a.contains(x));
                    let k = choose|k: int| 0 <= k < a.len() && a[k] == x;
                    assert(e[k] == x);
                } else {
                    assert(last.orders[j].id == x);
                    assert(b.contains(x));
                    let k = choose|k: int| 0 <= k < b.len() && b[k] == x;
                    assert(e[a.len() + k] == x);
                }
            }
        }
    }
}

/// The identifiers listed for `ls` are those of its orders.
proof fn lemma_level_ids(ls: Seq<LevelView>)
    ensures
        forall|x: OrderId| #[trigger]
            level_ids(ls).contains(x) <==> exists|i: int, j: int|
                0 <= i < ls.len() && 0 <= j < ls[i].orders.len() && #[trigger] ls[i].orders[j].id
                    == x,
    decreases ls.len(),
{
    if ls.len() > 0 {
        let ls2 = ls.drop_last();
        lemma_level_ids(ls2);
        let last = ls.last();
        let a = level_ids(ls2);
        let b = order_ids(last.orders);
        let e = level_ids(ls);
        assert(e == a + b);
        assert forall|x: OrderId| #[trigger] e.contains(x) <==> exists|i: int, j: int|
            0 <= i < ls.len() && 0 <= j < ls[i].orders.len() && #[trigger] ls[i].orders[j].id
                == x by {
            if e.contains(x) {
                let k = choose|k: int| 0 <= k < e.len() && e[k] == x;
                if k < a.len() {
                    assert(a[k] == x);
                    assert(a.contains(x));
                    let (i, j) = choose|i: int, j: int|
                        0 <= i < ls2.len() && 0 <= j < ls2[i].orders.len()
                            && #[trigger] ls2[i].orders[j].id == x;
                    assert(ls[i] == ls2[i]);
                    assert(ls[i].orders[j].id == x);
                } else {
                    assert(b[k - a.len()] == x);
                    assert(ls[ls.len() - 1].orders[k - a.len()].id == x);
                }
            }
            if exists|i: int, j: int|
                0 <= i < ls.len() && 0 <= j < ls[i].orders.len() && #[trigger] ls[i].orders[j].id
                    == x {
                let (i, j) = choose|i: int, j: int|
                    0 <= i < ls.len() && 0 <= j < ls[i].orders.len() && #[trigger] ls[i].orders[j].id
                        == x;
                if i < ls.len() - 1 {
                    assert(ls2[i] == ls[i]);
                    assert(ls2[i].orders[j].id == x);
                    assert(a.contains(x));
                    let k = choose|k: int| 0 <= k < a.len() && a[k] == x;
                    assert(e[k] == x);
                } else {
                    assert(b[j] == x);
                    assert(e[a.len() + j] == x);
                }
            }
        }
    }
}

/// Two resting orders with one identifier on a book with an exact index
/// are the same order.
proof fn lemma_same_id_same_order(book: BookView, ls: Seq<LevelView>, side: Side, i: int, j: int, o: Order)
    requires
        book.wf(),
        indexed(book),
        ls == book.side_levels(side),
        0 <= i < ls.len(),
        0 <= j < ls[i].orders.len(),
        rests(book, o),
        o.id == ls[i].orders[j].id,
    ensures
        ls[i].orders[j] == o,
{
    let p = ls[i].orders[j];
    assert(level_wf(ls[i], side));
    assert(rests_in(ls, p));
    assert(rests(book, p)) by {
        match side {
            Side::Bid => {},
            Side::Ask => {},
        }
    }
    assert(book.index[p.id.0] == (p.side, p.price));
    assert(book.index[o.id.0] == (o.side, o.price));
    let (a, b) = if rests_in(book.bids, o) {
        lemma_rests_in_side(book.bids, Side::Bid, o);
        choose|a: int, b: int|
            0 <= a < book.bids.len() && 0 <= b < book.bids[a].orders.len()
                && #[trigger] book.bids[a].orders[b] == o
    } else {
        lemma_rests_in_side(book.asks, Side::Ask, o);
        choose|a: int, b: int|
            0 <= a < book.asks.len() && 0 <= b < book.asks[a].orders.len()
                && #[trigger] book.asks[a].orders[b] == o
    };
    assert(o.side == side);
    assert(ls[a].orders[b] == o) by {
        match side {
            Side::Bid => {},
            Side::Ask => {},
        }
    }
    assert(ls[a].orders[b].id == ls[i].orders[j].id);
    assert(unique_ids(ls)) by {
        match side {
            Side::Bid => {},
            Side::Ask => {},
        }
    }
}

/// Purging at `now` takes off the book exactly the orders expired at `now`
/// (good-till-date orders whose expiry is not after `now`), keeps every
/// other order, and returns the ones it took off.
pub proof fn law_purge_removes_exactly_expired(book: BookView, now: u64)
    requires
        book.wf(),
        indexed(book),
    ensures
        ({
            let (b2, out) = purge_result(book, now);
            &&& forall|o: Order| #[trigger]
                rests(b2, o) <==> rests(book, o) && !expired_at(o, now)
            &&& forall|o: Order| #[trigger]
                out.contains(o) <==> rests(book, o) && expired_at(o, now)
            &&& indexed(b2)
        }),
{
    let eb = expired_levels(book.bids, now);
    let ea = expired_levels(book.asks, now);
    let ids = eb + ea;
    lemma_expired_levels(book.bids, now);
    lemma_expired_levels(book.asks, now);
    lemma_cancel_seq_members(book, ids);
    assert forall|o: Order| rests(book, o) implies (ids.contains(o.id) <==> expired_at(o, now)) by {
        if ids.contains(o.id) {
            let k = choose|k: int| 0 <= k < ids.len() && ids[k] == o.id;
            if k < eb.len() {
                assert(eb[k] == o.id);
                assert(eb.contains(o.id));
                let (i, j) = choose|i: int, j: int|
                    0 <= i < book.bids.len() && 0 <= j < book.bids[i].orders.len()
                        && #[trigger] book.bids[i].orders[j].id == o.id && expired_at(
                        book.bids[i].orders[j],
                        now,
                    );
                lemma_same_id_same_order(book, book.bids, Side::Bid, i, j, o);
            } else {
                assert(ea[k - eb.len()] == o.id);
                assert(ea.contains(o.id));
                let (i, j) = choose|i: int, j: int|
                    0 <= i < book.asks.len() && 0 <= j < book.asks[i].orders.len()
                        && #[trigger] book.asks[i].orders[j].id == o.id && expired_at(
                        book.asks[i].orders[j],
                        now,
                    );
                lemma_same_id_same_order(book, book.asks, Side::Ask, i, j, o);
            }
        }
        if expired_at(o, now) {
            if rests_in(book.bids, o) {
                let (i, j) = choose|i: int, j: int|
                    0 <= i < book.bids.len() && 0 <= j < book.bids[i].orders.len()
                        && #[trigger] book.bids[i].orders[j] == o;
                assert(book.bids[i].orders[j].id == o.id);
                assert(eb.contains(o.id));
                let k = choose|k: int| 0 <= k < eb.len() && eb[k] == o.id;
                assert(ids[k] == o.id);
            } else {
                let (i, j) = choose|i: int, j: int|
                    0 <= i < book.asks.len() && 0 <= j < book.asks[i].orders.len()
                        && #[trigger] book.asks[i].orders[j] == o;
                assert(book.asks[i].orders[j].id == o.id);
                assert(ea.contains(o.id));
                let k = choose|k: int| 0 <= k < ea.len() && ea[k] == o.id;
                assert(ids[eb.len() + k] == o.id);
            }
        }
    }
}

/// Purging twice at the same time changes nothing the second time: the
/// second purge returns no orders and leaves the book as the first left it.
pub proof fn law_purge_twice_changes_nothing(book: BookView, now: u64)
    ensures
        purge_result(purge_result(book, now).0, now) == (purge_result(book, now).0, Seq::<Order>::empty()),
{
    let eb = expired_levels(book.bids, now);
    let ea = expired_levels(book.asks, now);
    let ids1 = eb + ea;
    lemma_expired_levels(book.bids, now);
    lemma_expired_levels(book.asks, now);
    law_cancel_seq_keeps_index_tight(book, ids1);
    let b1 = purge_result(book, now).0;
    assert(b1 == cancel_seq(book, ids1).0);
    // Every order still expired was listed the first time, and its index
    // entry is gone.
    assert forall|x: Order| rests(b1, x) && expired_at(x, now) implies !b1.index.contains_key(
        x.id.0,
    ) by {
        assert(rests(book, x));
        let k: int = if rests_in(book.bids, x) {
            let (i, j) = choose|i: int, j: int|
                0 <= i < book.bids.len() && 0 <= j < book.bids[i].orders.len()
                    && #[trigger] book.bids[i].orders[j] == x;
            assert(book.bids[i].orders[j].id == x.id);
            assert(eb.contains(x.id));
            let k = choose|k: int| 0 <= k < eb.len() && eb[k] == x.id;
            k
        } else {
            let (i, j) = choose|i: int, j: int|
                0 <= i < book.asks.len() && 0 <= j < book.asks[i].orders.len()
                    && #[trigger] book.asks[i].orders[j] == x;
            assert(book.asks[i].orders[j].id == x.id);
            assert(ea.contains(x.id));
            let k = choose|k: int| 0 <= k < ea.len() && ea[k] == x.id;
            eb.len() + k
        };
        assert(ids1[k] == x.id);
    }
    lemma_expired_levels(b1.bids, now);
    lemma_expired_levels(b1.asks, now);
    let fb = expired_levels(b1.bids, now);
    let fa = expired_levels(b1.asks, now);
    let ids2 = fb + fa;
    assert forall|i: int| 0 <= i < ids2.len() implies !b1.index.contains_key(
        (#[trigger] ids2[i]).0,
    ) by {
        let x = ids2[i];
        if i < fb.len() {
            assert(fb[i] == x);
            assert(fb.contains(x));
            let (a, b) = choose|a: int, b: int|
                0 <= a < b1.bids.len() && 0 <= b < b1.bids[a].orders.len()
                    && #[trigger] b1.bids[a].orders[b].id == x && expired_at(b1.bids[a].orders[b], now);
            let y = b1.bids[a].orders[b];
            assert(rests_in(b1.bids, y));
            assert(rests(b1, y));
        } else {
            assert(fa[i - fb.len()] == x);
            assert(fa.contains(x));
            let (a, b) = choose|a: int, b: int|
                0 <= a < b1.asks.len() && 0 <= b < b1.asks[a].orders.len()
                    && #[trigger] b1.asks[a].orders[b].id == x && expired_at(b1.asks[a].orders[b], now);
            let y = b1.asks[a].orders[b];
            assert(rests_in(b1.asks, y));
            assert(rests(b1, y));
        }
    }
    lemma_cancel_seq_unindexed(b1, ids2);
}

/// Cancelling every identifier of one side, as `cancel_all_side` does,
/// leaves that side empty and every order of the other side resting.
pub proof fn law_cancel_all_side_empties_it(book: BookView, side: Side)
    requires
        book.wf(),
        indexed(book),
    ensures
        ({
            let b2 = cancel_seq(book, level_ids(book.side_levels(side))).0;
            &&& b2.side_levels(side).len() == 0
            &&& forall|o: Order| #[trigger]
                rests(b2, o) <==> rests_in(book.side_levels(crate::book_model::opposite(side)), o)
            &&& indexed(b2)
        }),
{
    let ls = book.side_levels(side);
    let other = book.side_levels(crate::book_model::opposite(side));
    let ids = level_ids(ls);
    lemma_level_ids(ls);
    lemma_cancel_seq_members(book, ids);
    let b2 = cancel_seq(book, ids).0;
    assert forall|o: Order| rests(book, o) implies (ids.contains(o.id) <==> rests_in(ls, o)) by {
        if ids.contains(o.id) {
            let (i, j) = choose|i: int, j: int|
                0 <= i < ls.len() && 0 <= j < ls[i].orders.len() && #[trigger] ls[i].orders[j].id
                    == o.id;
            lemma_same_id_same_order(book, ls, side, i, j, o);
        }
        if rests_in(ls, o) {
            let (i, j) = choose|i: int, j: int|
                0 <= i < ls.len() && 0 <= j < ls[i].orders.len() && #[trigger] ls[i].orders[j] == o;
            assert(ls[i].orders[j].id == o.id);
        }
    }
    assert forall|o: Order| rests(book, o) <==> rests_in(ls, o) || rests_in(other, o) by {
        match side {
            Side::Bid => {},
            Side::Ask => {},
        }
    }
    assert forall|o: Order| rests_in(other, o) implies !rests_in(ls, o) by {
        if rests_in(ls, o) && rests_in(other, o) {
            match side {
                Side::Bid => {
                    lemma_rests_in_side(book.bids, Side::Bid, o);
                    lemma_rests_in_side(book.asks, Side::Ask, o);
                },
                Side::Ask => {
                    lemma_rests_in_side(book.bids, Side::Bid, o);
                    lemma_rests_in_side(book.asks, Side::Ask, o);
                },
            }
        }
    }
    let ls2 = b2.side_levels(side);
    if ls2.len() > 0 {
        assert(level_wf(ls2[0], side));
        let o = ls2[0].orders[0];
        assert(rests_in(ls2, o));
        assert(rests(b2, o)) by {
            match side {
                Side::Bid => {},
                Side::Ask => {},
            }
        }
    }
}

} // verus!
