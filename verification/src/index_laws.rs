//! The identifier index stays exact: submitting an order with a fresh
//! identifier keeps every resting order indexed under its side and price,
//! with identifiers unique, and adds no stale entry; on such a book,
//! cancelling undoes a resting submission.

use vstd::prelude::*;

use crate::book_laws::{lemma_drop_first_wf, law_cancel_undoes_resting_insert};
use crate::book_model::{
    crosses, fok_blocked, gtd_expired, insert_admissible, insert_result, lemma_better_count,
    lemma_sweep_level, lemma_sweep_side, level_wf, levels_wf, match_result, matched_taker,
    opposite, remove_all, rest_into, cancel_result, rests as rests_after_match, sum_qty, sweep_level, sweep_side,
    taker_limit, better_count, BookView, LevelView,
};
use crate::cancel_laws::{index_tight, indexed, rests, rests_in, unique_ids};
use crate::order::{Order, OrderId, OrderType, Side, TimeInForce};

verus! {

/// Some order resting in `ls` has identifier `id` and price `price`.
pub open spec fn holds_key(ls: Seq<LevelView>, id: OrderId, price: i64) -> bool {
    exists|a: int, b: int|
        0 <= a < ls.len() && 0 <= b < ls[a].orders.len() && #[trigger] ls[a].orders[b].id == id
            && ls[a].orders[b].price == price
}

/// `res` is what is left of `src` after some orders went, `rep` lists the
/// identifiers of orders that went: identifiers in `res` are unique, each
/// order of `res` has the identifier and price of an order of `src` and is
/// not reported, and every reported identifier is that of an order of `src`.
pub open spec fn keys_from(res: Seq<LevelView>, rep: Seq<u64>, src: Seq<LevelView>) -> bool {
    &&& unique_ids(res)
    &&& forall|i: int, j: int|
        0 <= i < res.len() && 0 <= j < res[i].orders.len() ==> holds_key(
            src,
            #[trigger] res[i].orders[j].id,
            res[i].orders[j].price,
        ) && !rep.contains(res[i].orders[j].id.0)
    &&& forall|x: u64| #[trigger]
        rep.contains(x) ==> exists|a: int, b: int|
            0 <= a < src.len() && 0 <= b < src[a].orders.len() && #[trigger] src[a].orders[b].id.0
                == x
}

/// Nothing taken away: a side with unique identifiers is what is left of
/// itself.
proof fn lemma_keys_refl(ls: Seq<LevelView>)
    requires
        unique_ids(ls),
    ensures
        keys_from(ls, Seq::empty(), ls),
{
    assert forall|i: int, j: int|
        0 <= i < ls.len() && 0 <= j < ls[i].orders.len() implies holds_key(
        ls,
        #[trigger] ls[i].orders[j].id,
        ls[i].orders[j].price,
    ) && !Seq::<u64>::empty().contains(ls[i].orders[j].id.0) by {}
}

/// The unfilled part of the best level, as the sweep leaves it.
pub open spec fn head_left(l: LevelView, r: Seq<Order>, q: int) -> Seq<LevelView> {
    if r.len() == 0 {
        Seq::<LevelView>::empty()
    } else {
        seq![LevelView { price: l.price, orders: r, total: (l.total - q) as u64 }]
    }
}

/// Sweeping one level: what is left of it and the reported identifiers.
proof fn lemma_level_keys(l: LevelView, side: Side, want: int, taker_id: OrderId, ts: u64)
    requires
        level_wf(l, side),
        unique_ids(seq![l]),
    ensures
        ({
            let r1 = sweep_level(l.orders, want, taker_id, ts);
            keys_from(head_left(l, r1.0, sum_qty(r1.1)), r1.2, seq![l])
        }),
{
    let os = l.orders;
    let r1 = sweep_level(os, want, taker_id, ts);
    lemma_sweep_level(os, want, taker_id, ts);
    let d = os.len() - r1.0.len();
    let hd = head_left(l, r1.0, sum_qty(r1.1));
    let src = seq![l];
    assert(src[0] == l);
    assert forall|i1: int, i2: int|
        #![trigger os[i1], os[i2]]
        0 <= i1 < os.len() && 0 <= i2 < os.len() && os[i1].id == os[i2].id implies i1 == i2 by {
        assert(src[0].orders[i1].id == src[0].orders[i2].id);
    }
    assert forall|i: int, j: int|
        0 <= i < hd.len() && 0 <= j < hd[i].orders.len() implies holds_key(
        src,
        #[trigger] hd[i].orders[j].id,
        hd[i].orders[j].price,
    ) && !r1.2.contains(hd[i].orders[j].id.0) by {
        assert(hd[i].orders[j] == r1.0[j]);
        assert(src[0].orders[j + d].id == r1.0[j].id);
        if r1.2.contains(r1.0[j].id.0) {
            let k = choose|k: int| 0 <= k < r1.2.len() && r1.2[k] == r1.0[j].id.0;
            assert(os[k].id == os[j + d].id);
        }
    }
    assert forall|x: u64| #[trigger] r1.2.contains(x) implies exists|a: int, b: int|
        0 <= a < src.len() && 0 <= b < src[a].orders.len() && #[trigger] src[a].orders[b].id.0 == x by {
        let k = choose|k: int| 0 <= k < r1.2.len() && r1.2[k] == x;
        assert(src[0].orders[k].id.0 == x);
    }
    assert(unique_ids(hd)) by {
        assert forall|i1: int, j1: int, i2: int, j2: int|
            #![trigger hd[i1].orders[j1], hd[i2].orders[j2]]
            0 <= i1 < hd.len() && 0 <= j1 < hd[i1].orders.len() && 0 <= i2 < hd.len() && 0 <= j2
                < hd[i2].orders.len() && hd[i1].orders[j1].id == hd[i2].orders[j2].id implies i1
            == i2 && j1 == j2 by {
            assert(hd[i1].orders[j1] == r1.0[j1]);
            assert(hd[i2].orders[j2] == r1.0[j2]);
            assert(os[j1 + d].id == os[j2 + d].id);
        }
    }
}

/// What is left of the best level and what is left of the others together
/// are what is left of the whole side.
proof fn lemma_keys_concat(
    hres: Seq<LevelView>,
    hrep: Seq<u64>,
    tres: Seq<LevelView>,
    trep: Seq<u64>,
    ls: Seq<LevelView>,
)
    requires
        ls.len() > 0,
        unique_ids(ls),
        keys_from(hres, hrep, seq![ls[0]]),
        keys_from(tres, trep, ls.drop_first()),
    ensures
        keys_from(hres + tres, hrep + trep, ls),
{
    let res = hres + tres;
    let rep = hrep + trep;
    let tail = ls.drop_first();
    let one = seq![ls[0]];
    let h = hres.len();
    // Orders of the two parts sit at different places of `ls`.
    assert forall|i: int, j: int, a: int, b: int|
        0 <= i < hres.len() && 0 <= j < hres[i].orders.len() && 0 <= a < tres.len() && 0 <= b
            < tres[a].orders.len() implies #[trigger] hres[i].orders[j].id != #[trigger] tres[a].orders[b].id by {
        let x = hres[i].orders[j];
        let y = tres[a].orders[b];
        assert(holds_key(one, x.id, x.price));
        assert(holds_key(tail, y.id, y.price));
        let (a1, b1) = choose|a1: int, b1: int|
            0 <= a1 < one.len() && 0 <= b1 < one[a1].orders.len() && #[trigger] one[a1].orders[b1].id
                == x.id && one[a1].orders[b1].price == x.price;
        let (a2, b2) = choose|a2: int, b2: int|
            0 <= a2 < tail.len() && 0 <= b2 < tail[a2].orders.len() && #[trigger] tail[a2].orders[b2].id
                == y.id && tail[a2].orders[b2].price == y.price;
        assert(one[a1] == ls[0]);
        assert(tail[a2] == ls[a2 + 1]);
        if x.id == y.id {
            assert(ls[0].orders[b1].id == ls[a2 + 1].orders[b2].id);
        }
    }
    assert forall|i: int, j: int|
        0 <= i < res.len() && 0 <= j < res[i].orders.len() implies holds_key(
        ls,
        #[trigger] res[i].orders[j].id,
        res[i].orders[j].price,
    ) && !rep.contains(res[i].orders[j].id.0) by {
        let x = res[i].orders[j];
        if i < h {
            assert(res[i] == hres[i]);
            assert(holds_key(one, x.id, x.price));
            let (a1, b1) = choose|a1: int, b1: int|
                0 <= a1 < one.len() && 0 <= b1 < one[a1].orders.len() && #[trigger] one[a1].orders[b1].id
                    == x.id && one[a1].orders[b1].price == x.price;
            assert(one[a1] == ls[0]);
            assert(ls[0].orders[b1].id == x.id);
            if rep.contains(x.id.0) {
                let k = choose|k: int| 0 <= k < rep.len() && rep[k] == x.id.0;
                if k < hrep.len() {
                    assert(hrep[k] == x.id.0);
                    assert(hrep.contains(x.id.0));
                } else {
                    assert(trep[k - hrep.len()] == x.id.0);
                    assert(trep.contains(x.id.0));
                    let (a2, b2) = choose|a2: int, b2: int|
                        0 <= a2 < tail.len() && 0 <= b2 < tail[a2].orders.len()
                            && #[trigger] tail[a2].orders[b2].id.0 == x.id.0;
                    assert(tail[a2] == ls[a2 + 1]);
                    assert(ls[a2 + 1].orders[b2].id == ls[0].orders[b1].id);
                }
            }
        } else {
            assert(res[i] == tres[i - h]);
            assert(holds_key(tail, x.id, x.price));
            let (a2, b2) = choose|a2: int, b2: int|
                0 <= a2 < tail.len() && 0 <= b2 < tail[a2].orders.len() && #[trigger] tail[a2].orders[b2].id
                    == x.id && tail[a2].orders[b2].price == x.price;
            assert(tail[a2] == ls[a2 + 1]);
            assert(ls[a2 + 1].orders[b2].id == x.id);
            if rep.contains(x.id.0) {
                let k = choose|k: int| 0 <= k < rep.len() && rep[k] == x.id.0;
                if k < hrep.len() {
                    assert(hrep[k] == x.id.0);
                    assert(hrep.contains(x.id.0));
                    let (a1, b1) = choose|a1: int, b1: int|
                        0 <= a1 < one.len() && 0 <= b1 < one[a1].orders.len()
                            && #[trigger] one[a1].orders[b1].id.0 == x.id.0;
                    assert(one[a1] == ls[0]);
                    assert(ls[0].orders[b1].id == ls[a2 + 1].orders[b2].id);
                } else {
                    assert(trep[k - hrep.len()] == x.id.0);
                    assert(trep.contains(x.id.0));
                }
            }
        }
    }
    assert forall|x: u64| #[trigger] rep.contains(x) implies exists|a: int, b: int|
        0 <= a < ls.len() && 0 <= b < ls[a].orders.len() && #[trigger] ls[a].orders[b].id.0 == x by {
        let k = choose|k: int| 0 <= k < rep.len() && rep[k] == x;
        if k < hrep.len() {
            assert(hrep[k] == x);
            assert(hrep.contains(x));
            let (a1, b1) = choose|a1: int, b1: int|
                0 <= a1 < one.len() && 0 <= b1 < one[a1].orders.len() && #[trigger] one[a1].orders[b1].id.0
                    == x;
            assert(one[a1] == ls[0]);
            assert(ls[0].orders[b1].id.0 == x);
        } else {
            assert(trep[k - hrep.len()] == x);
            assert(trep.contains(x));
            let (a2, b2) = choose|a2: int, b2: int|
                0 <= a2 < tail.len() && 0 <= b2 < tail[a2].orders.len() && #[trigger] tail[a2].orders[b2].id.0
                    == x;
            assert(tail[a2] == ls[a2 + 1]);
            assert(ls[a2 + 1].orders[b2].id.0 == x);
        }
    }
    assert(unique_ids(res)) by {
        assert forall|i1: int, j1: int, i2: int, j2: int|
            #![trigger res[i1].orders[j1], res[i2].orders[j2]]
            0 <= i1 < res.len() && 0 <= j1 < res[i1].orders.len() && 0 <= i2 < res.len() && 0
                <= j2 < res[i2].orders.len() && res[i1].orders[j1].id == res[i2].orders[j2].id implies i1
            == i2 && j1 == j2 by {
            if i1 < h && i2 < h {
                assert(res[i1] == hres[i1] && res[i2] == hres[i2]);
                assert(hres[i1].orders[j1].id == hres[i2].orders[j2].id);
            } else if i1 >= h && i2 >= h {
                assert(res[i1] == tres[i1 - h] && res[i2] == tres[i2 - h]);
                assert(tres[i1 - h].orders[j1].id == tres[i2 - h].orders[j2].id);
            } else if i1 < h {
                assert(res[i1] == hres[i1] && res[i2] == tres[i2 - h]);
                assert(hres[i1].orders[j1].id != tres[i2 - h].orders[j2].id);
            } else {
                assert(res[i2] == hres[i2] && res[i1] == tres[i1 - h]);
                assert(hres[i2].orders[j2].id != tres[i1 - h].orders[j1].id);
            }
        }
    }
}

/// Sweeping one side leaves unique identifiers, each with the identifier
/// and price of an order that was there and not reported as filled, and
/// reports only identifiers of orders that were there.
proof fn lemma_sweep_keys(
    ls: Seq<LevelView>,
    want: int,
    taker_side: Side,
    limit: i64,
    taker_id: OrderId,
    ts: u64,
)
    requires
        levels_wf(ls, opposite(taker_side)),
        unique_ids(ls),
    ensures
        ({
            let r = sweep_side(ls, want, taker_side, limit, taker_id, ts);
            keys_from(r.0, r.2, ls)
        }),
    decreases ls.len(),
{
    if want <= 0 || ls.len() == 0 || !crosses(taker_side, ls[0].price, limit) {
        lemma_keys_refl(ls);
    } else {
        let opp = opposite(taker_side);
        let l = ls[0];
        assert(level_wf(l, opp));
        let r1 = sweep_level(l.orders, want, taker_id, ts);
        let q = sum_qty(r1.1);
        let tail = ls.drop_first();
        lemma_drop_first_wf(ls, opp);
        assert(unique_ids(tail)) by {
            assert forall|i1: int, j1: int, i2: int, j2: int|
                #![trigger tail[i1].orders[j1], tail[i2].orders[j2]]
                0 <= i1 < tail.len() && 0 <= j1 < tail[i1].orders.len() && 0 <= i2 < tail.len()
                    && 0 <= j2 < tail[i2].orders.len() && tail[i1].orders[j1].id
                    == tail[i2].orders[j2].id implies i1 == i2 && j1 == j2 by {
                assert(tail[i1] == ls[i1 + 1]);
                assert(tail[i2] == ls[i2 + 1]);
                assert(ls[i1 + 1].orders[j1].id == ls[i2 + 1].orders[j2].id);
            }
        }
        assert(unique_ids(seq![l])) by {
            let one = seq![l];
            assert forall|i1: int, j1: int, i2: int, j2: int|
                #![trigger one[i1].orders[j1], one[i2].orders[j2]]
                0 <= i1 < one.len() && 0 <= j1 < one[i1].orders.len() && 0 <= i2 < one.len() && 0
                    <= j2 < one[i2].orders.len() && one[i1].orders[j1].id
                    == one[i2].orders[j2].id implies i1 == i2 && j1 == j2 by {
                assert(one[i1] == ls[0] && one[i2] == ls[0]);
                assert(ls[0].orders[j1].id == ls[0].orders[j2].id);
            }
        }
        lemma_level_keys(l, opp, want, taker_id, ts);
        let rest = sweep_side(tail, want - q, taker_side, limit, taker_id, ts);
        lemma_sweep_keys(tail, want - q, taker_side, limit, taker_id, ts);
        lemma_keys_concat(head_left(l, r1.0, q), r1.2, rest.0, rest.2, ls);
    }
}

/// Some order resting in `ls` has identifier `id`.
pub open spec fn has_id(ls: Seq<LevelView>, id: OrderId) -> bool {
    exists|i: int, j: int|
        0 <= i < ls.len() && 0 <= j < ls[i].orders.len() && #[trigger] ls[i].orders[j].id == id
}

/// Every order of `src` whose identifier is not reported in `rep` still
/// has its identifier in `res`.
pub open spec fn keeps_unreported(res: Seq<LevelView>, rep: Seq<u64>, src: Seq<LevelView>) -> bool {
    forall|a: int, b: int|
        0 <= a < src.len() && 0 <= b < src[a].orders.len() && !rep.contains(
            #[trigger] src[a].orders[b].id.0,
        ) ==> has_id(res, src[a].orders[b].id)
}

/// Sweeping one level keeps every order it does not report.
proof fn lemma_level_keeps(l: LevelView, side: Side, want: int, taker_id: OrderId, ts: u64)
    requires
        level_wf(l, side),
    ensures
        ({
            let r1 = sweep_level(l.orders, want, taker_id, ts);
            keeps_unreported(head_left(l, r1.0, sum_qty(r1.1)), r1.2, seq![l])
        }),
{
    let os = l.orders;
    let r1 = sweep_level(os, want, taker_id, ts);
    lemma_sweep_level(os, want, taker_id, ts);
    let d = os.len() - r1.0.len();
    let hd = head_left(l, r1.0, sum_qty(r1.1));
    let src = seq![l];
    assert forall|a: int, b: int|
        0 <= a < src.len() && 0 <= b < src[a].orders.len() && !r1.2.contains(
            #[trigger] src[a].orders[b].id.0,
        ) implies has_id(hd, src[a].orders[b].id) by {
        assert(src[a] == l);
        if b < d {
            assert(r1.2[b] == os[b].id.0);
        } else {
            assert(hd[0].orders[b - d] == r1.0[b - d]);
            assert(hd[0].orders[b - d].id == os[b].id);
        }
    }
}

/// Keeping the unreported orders of the best level and of the others keeps
/// those of the whole side.
proof fn lemma_keeps_concat(
    hres: Seq<LevelView>,
    hrep: Seq<u64>,
    tres: Seq<LevelView>,
    trep: Seq<u64>,
    ls: Seq<LevelView>,
)
    requires
        ls.len() > 0,
        keeps_unreported(hres, hrep, seq![ls[0]]),
        keeps_unreported(tres, trep, ls.drop_first()),
    ensures
        keeps_unreported(hres + tres, hrep + trep, ls),
{
    let res = hres + tres;
    let rep = hrep + trep;
    let tail = ls.drop_first();
    let one = seq![ls[0]];
    assert forall|a: int, b: int|
        0 <= a < ls.len() && 0 <= b < ls[a].orders.len() && !rep.contains(
            #[trigger] ls[a].orders[b].id.0,
        ) implies has_id(res, ls[a].orders[b].id) by {
        let x = ls[a].orders[b].id;
        if hrep.contains(x.0) {
            let k = choose|k: int| 0 <= k < hrep.len() && hrep[k] == x.0;
            assert(rep[k] == x.0);
        }
        if trep.contains(x.0) {
            let k = choose|k: int| 0 <= k < trep.len() && trep[k] == x.0;
            assert(rep[hrep.len() + k] == x.0);
        }
        if a == 0 {
            assert(one[0].orders[b].id == x);
            let (i, j) = choose|i: int, j: int|
                0 <= i < hres.len() && 0 <= j < hres[i].orders.len() && #[trigger] hres[i].orders[j].id
                    == x;
            assert(res[i] == hres[i]);
            assert(res[i].orders[j].id == x);
        } else {
            assert(tail[a - 1] == ls[a]);
            assert(tail[a - 1].orders[b].id == x);
            let (i, j) = choose|i: int, j: int|
                0 <= i < tres.len() && 0 <= j < tres[i].orders.len() && #[trigger] tres[i].orders[j].id
                    == x;
            assert(res[hres.len() + i] == tres[i]);
            assert(res[hres.len() + i].orders[j].id == x);
        }
    }
}

/// Sweeping one side keeps, by identifier, every order it does not report
/// as filled.
proof fn lemma_sweep_keeps(
    ls: Seq<LevelView>,
    want: int,
    taker_side: Side,
    limit: i64,
    taker_id: OrderId,
    ts: u64,
)
    requires
        levels_wf(ls, opposite(taker_side)),
    ensures
        ({
            let r = sweep_side(ls, want, taker_side, limit, taker_id, ts);
            keeps_unreported(r.0, r.2, ls)
        }),
    decreases ls.len(),
{
    let r = sweep_side(ls, want, taker_side, limit, taker_id, ts);
    if want <= 0 || ls.len() == 0 || !crosses(taker_side, ls[0].price, limit) {
        assert forall|a: int, b: int|
            0 <= a < ls.len() && 0 <= b < ls[a].orders.len() && !r.2.contains(
                #[trigger] ls[a].orders[b].id.0,
            ) implies has_id(r.0, ls[a].orders[b].id) by {
            assert(r.0[a].orders[b].id == ls[a].orders[b].id);
        }
    } else {
        let opp = opposite(taker_side);
        let l = ls[0];
        assert(level_wf(l, opp));
        let r1 = sweep_level(l.orders, want, taker_id, ts);
        let q = sum_qty(r1.1);
        let tail = ls.drop_first();
        lemma_drop_first_wf(ls, opp);
        lemma_level_keeps(l, opp, want, taker_id, ts);
        let rest = sweep_side(tail, want - q, taker_side, limit, taker_id, ts);
        lemma_sweep_keeps(tail, want - q, taker_side, limit, taker_id, ts);
        lemma_keeps_concat(head_left(l, r1.0, q), r1.2, rest.0, rest.2, ls);
    }
}

/// Resting an order with a fresh identifier keeps identifiers unique; every
/// order of the new side is the rested order or one that was there.
proof fn lemma_rest_into_keys(ls: Seq<LevelView>, o: Order)
    ensures
        unique_ids(ls) && (forall|a: int, b: int|
            0 <= a < ls.len() && 0 <= b < ls[a].orders.len() ==> #[trigger] ls[a].orders[b].id
                != o.id) ==> unique_ids(rest_into(ls, o)),
        rests_in(rest_into(ls, o), o),
        forall|x: Order| #[trigger] rests_in(rest_into(ls, o), x) ==> x == o || rests_in(ls, x),
        forall|x: Order| #[trigger] rests_in(ls, x) ==> rests_in(rest_into(ls, o), x),
{
    let side = o.side;
    let p = better_count(ls, side, o.price);
    lemma_better_count(ls, side, o.price);
    let r = rest_into(ls, o);
    let found = p < ls.len() && ls[p].price == o.price;
    // Where each place of the new side was before.
    assert forall|i: int, j: int| 0 <= i < r.len() && 0 <= j < r[i].orders.len() implies {
        let fresh = if found {
            i == p && j == ls[p].orders.len()
        } else {
            i == p
        };
        let i0 = if !found && i > p {
            i - 1
        } else {
            i
        };
        &&& fresh ==> #[trigger] r[i].orders[j] == o
        &&& !fresh ==> 0 <= i0 < ls.len() && 0 <= j < ls[i0].orders.len() && r[i].orders[j]
            == ls[i0].orders[j]
    } by {
        if found {
            if i == p {
                assert(r[i].orders == ls[p].orders.push(o));
            } else {
                assert(r[i] == ls[i]);
            }
        } else {
            if i == p {
                assert(r[i].orders == seq![o]);
            } else if i < p {
                assert(r[i] == ls[i]);
            } else {
                assert(r[i] == ls[i - 1]);
            }
        }
    }
    if found {
        assert(r[p].orders[ls[p].orders.len() as int] == o);
    } else {
        assert(r[p].orders[0] == o);
    }
    assert forall|x: Order| #[trigger] rests_in(ls, x) implies rests_in(r, x) by {
        let (i, j) = choose|i: int, j: int|
            0 <= i < ls.len() && 0 <= j < ls[i].orders.len() && #[trigger] ls[i].orders[j] == x;
        if found {
            if i == p {
                assert(r[i].orders == ls[p].orders.push(o));
            } else {
                assert(r[i] == ls[i]);
            }
            assert(r[i].orders[j] == x);
        } else if i < p {
            assert(r[i] == ls[i]);
            assert(r[i].orders[j] == x);
        } else {
            assert(r[i + 1] == ls[i]);
            assert(r[i + 1].orders[j] == x);
        }
    }
    assert forall|x: Order| #[trigger] rests_in(r, x) implies x == o || rests_in(ls, x) by {
        let (i, j) = choose|i: int, j: int|
            0 <= i < r.len() && 0 <= j < r[i].orders.len() && #[trigger] r[i].orders[j] == x;
        assert(r[i].orders[j] == x);
    }
    if unique_ids(ls) && (forall|a: int, b: int|
        0 <= a < ls.len() && 0 <= b < ls[a].orders.len() ==> #[trigger] ls[a].orders[b].id
            != o.id) {
        assert forall|i1: int, j1: int, i2: int, j2: int|
            #![trigger r[i1].orders[j1], r[i2].orders[j2]]
            0 <= i1 < r.len() && 0 <= j1 < r[i1].orders.len() && 0 <= i2 < r.len() && 0 <= j2
                < r[i2].orders.len() && r[i1].orders[j1].id == r[i2].orders[j2].id implies i1
            == i2 && j1 == j2 by {
            let x1 = r[i1].orders[j1];
            let x2 = r[i2].orders[j2];
            assert(x1 == r[i1].orders[j1] && x2 == r[i2].orders[j2]);
        }
    }
}

/// `remove_all` keeps exactly the keys it is not given, with their values.
proof fn lemma_remove_all_keys(m: Map<u64, (Side, i64)>, ids: Seq<u64>)
    ensures
        forall|k: u64| #[trigger]
            remove_all(m, ids).contains_key(k) <==> m.contains_key(k) && !ids.contains(k),
        forall|k: u64|
            #![trigger remove_all(m, ids)[k]]
            remove_all(m, ids).contains_key(k) ==> remove_all(m, ids)[k] == m[k],
    decreases ids.len(),
{
    if ids.len() > 0 {
        let ids2 = ids.drop_last();
        lemma_remove_all_keys(m, ids2);
        assert forall|k: u64| ids.contains(k) <==> ids2.contains(k) || k == ids.last() by {
            if ids.contains(k) {
                let i = choose|i: int| 0 <= i < ids.len() && ids[i] == k;
                if i < ids.len() - 1 {
                    assert(ids2[i] == k);
                }
            }
            if ids2.contains(k) {
                let i = choose|i: int| 0 <= i < ids2.len() && ids2[i] == k;
                assert(ids[i] == k);
            }
            if k == ids.last() {
                assert(ids[ids.len() - 1] == k);
            }
        }
        let r = remove_all(m, ids);
        let r2 = remove_all(m, ids2);
        assert(r == r2.remove(ids.last()));
        assert forall|k: u64| #[trigger] r.contains_key(k) <==> m.contains_key(k) && !ids.contains(k) by {
            assert(r2.contains_key(k) <==> m.contains_key(k) && !ids2.contains(k));
        }
        assert forall|k: u64| #[trigger] r.contains_key(k) implies r[k] == m[k] by {
            assert(r2.contains_key(k));
            assert(r2[k] == m[k]);
        }
    }
}

/// Submitting any order to a well formed book whose index holds no stale
/// entries leaves none: every identifier in the new index is that of a
/// resting order.
pub proof fn law_insert_keeps_index_tight(book: BookView, o: Order, now: u64)
    requires
        book.wf(),
        index_tight(book),
    ensures
        index_tight(insert_result(book, o, now).0),
{
    if !gtd_expired(o, now) {
        let opp = opposite(o.side);
        let ols = book.side_levels(opp);
        let own = book.side_levels(o.side);
        let m = match_result(book, o);
        assert(levels_wf(ols, opp)) by {
            match o.side {
                Side::Bid => {},
                Side::Ask => {},
            }
        }
        if fok_blocked(book, o) {
            assert forall|a: int, b: int|
                0 <= a < ols.len() && 0 <= b < ols[a].orders.len() && !m.2.contains(
                    #[trigger] ols[a].orders[b].id.0,
                ) implies has_id(m.0, ols[a].orders[b].id) by {
                assert(m.0[a].orders[b].id == ols[a].orders[b].id);
            }
        } else {
            lemma_sweep_keeps(ols, o.rem(), o.side, taker_limit(o), o.id, o.timestamp_ns);
        }
        assert(keeps_unreported(m.0, m.2, ols));
        let idx1 = remove_all(book.index, m.2);
        lemma_remove_all_keys(book.index, m.2);
        let b1 = crate::book_model::after_match(book, o);
        assert(b1.side_levels(opp) == m.0 && b1.side_levels(o.side) == own && b1.index == idx1);
        assert forall|x: Order| rests(b1, x) <==> rests_in(own, x) || rests_in(m.0, x) by {
            match o.side {
                Side::Bid => {},
                Side::Ask => {},
            }
        }
        assert forall|x: Order| rests(book, x) <==> rests_in(own, x) || rests_in(ols, x) by {
            match o.side {
                Side::Bid => {},
                Side::Ask => {},
            }
        }
        // Every entry left after matching names an order resting after it.
        assert forall|k: u64| #[trigger] idx1.contains_key(k) implies exists|x: Order|
            #[trigger] rests(b1, x) && x.id.0 == k by {
            assert(book.index.contains_key(k) && !m.2.contains(k));
            let x = choose|x: Order| #[trigger] rests(book, x) && x.id.0 == k;
            if !rests_in(own, x) {
                let (a, b) = choose|a: int, b: int|
                    0 <= a < ols.len() && 0 <= b < ols[a].orders.len() && #[trigger] ols[a].orders[b]
                        == x;
                assert(!m.2.contains(ols[a].orders[b].id.0));
                assert(has_id(m.0, ols[a].orders[b].id));
                let (i, j) = choose|i: int, j: int|
                    0 <= i < m.0.len() && 0 <= j < m.0[i].orders.len() && #[trigger] m.0[i].orders[j].id
                        == x.id;
                let y = m.0[i].orders[j];
                assert(rests_in(m.0, y));
                assert(rests(b1, y) && y.id.0 == k);
            }
        }
        if rests_after_match(o, sum_qty(m.1)) {
            let t = matched_taker(book, o);
            let own2 = rest_into(own, t);
            lemma_rest_into_keys(own, t);
            let b2 = insert_result(book, o, now).0;
            assert(b2.side_levels(o.side) == own2 && b2.side_levels(opp) == m.0);
            assert(b2.index == idx1.insert(o.id.0, (o.side, o.price)));
            assert forall|x: Order| rests(b2, x) <==> rests_in(own2, x) || rests_in(m.0, x) by {
                match o.side {
                    Side::Bid => {},
                    Side::Ask => {},
                }
            }
            assert forall|k: u64| #[trigger] b2.index.contains_key(k) implies exists|x: Order|
                #[trigger] rests(b2, x) && x.id.0 == k by {
                if k == o.id.0 {
                    assert(rests_in(own2, t));
                    assert(rests(b2, t) && t.id.0 == k);
                } else {
                    assert(idx1.contains_key(k));
                    let x = choose|x: Order| #[trigger] rests(b1, x) && x.id.0 == k;
                    if rests_in(own, x) {
                        assert(rests_in(own2, x));
                    }
                    assert(rests(b2, x));
                }
            }
        } else {
            assert(insert_result(book, o, now).0 == b1);
        }
    }
}

/// Submitting an order whose identifier no resting order carries keeps the
/// identifier index exact.
pub proof fn law_insert_keeps_index_exact(book: BookView, o: Order, now: u64)
    requires
        book.wf(),
        indexed(book),
        insert_admissible(book, o, now),
        forall|x: Order| #[trigger] rests(book, x) ==> x.id != o.id,
    ensures
        indexed(insert_result(book, o, now).0),
{
    if !gtd_expired(o, now) {
        let opp = opposite(o.side);
        let ols = book.side_levels(opp);
        let own = book.side_levels(o.side);
        let m = match_result(book, o);
        assert(levels_wf(ols, opp) && levels_wf(own, o.side)) by {
            match o.side {
                Side::Bid => {},
                Side::Ask => {},
            }
        }
        assert(unique_ids(ols) && unique_ids(own)) by {
            match o.side {
                Side::Bid => {},
                Side::Ask => {},
            }
        }
        if fok_blocked(book, o) {
            lemma_keys_refl(ols);
        } else {
            lemma_sweep_keys(ols, o.rem(), o.side, taker_limit(o), o.id, o.timestamp_ns);
            lemma_sweep_side(ols, o.rem(), o.side, taker_limit(o), o.id, o.timestamp_ns);
        }
        assert(keys_from(m.0, m.2, ols));
        assert(levels_wf(m.0, opp)) by {
            crate::book_model::lemma_match_result(book, o);
        }
        let idx1 = remove_all(book.index, m.2);
        lemma_remove_all_keys(book.index, m.2);
        assert forall|o2: Order| rests(book, o2) <==> rests_in(own, o2) || rests_in(ols, o2) by {
            match o.side {
                Side::Bid => {},
                Side::Ask => {},
            }
        }
        // What rests after matching: the untouched own side, and what the
        // sweep left, each indexed as before.
        assert forall|x: Order| rests_in(m.0, x) implies idx1.contains_key(x.id.0) && idx1[x.id.0]
            == (x.side, x.price) && x.id != o.id by {
            let (i, j) = choose|i: int, j: int|
                0 <= i < m.0.len() && 0 <= j < m.0[i].orders.len() && #[trigger] m.0[i].orders[j] == x;
            assert(holds_key(ols, x.id, x.price) && !m.2.contains(x.id.0));
            let (a, b) = choose|a: int, b: int|
                0 <= a < ols.len() && 0 <= b < ols[a].orders.len() && #[trigger] ols[a].orders[b].id
                    == x.id && ols[a].orders[b].price == x.price;
            let y = ols[a].orders[b];
            assert(rests_in(ols, y));
            assert(rests(book, y));
            assert(level_wf(ols[a], opp));
            assert(level_wf(m.0[i], opp));
            assert(y.side == opp && x.side == opp);
        }
        assert forall|x: Order| rests_in(own, x) implies idx1.contains_key(x.id.0) && idx1[x.id.0]
            == (x.side, x.price) && x.id != o.id by {
            assert(rests(book, x));
            if m.2.contains(x.id.0) {
                let (a, b) = choose|a: int, b: int|
                    0 <= a < ols.len() && 0 <= b < ols[a].orders.len() && #[trigger] ols[a].orders[b].id.0
                        == x.id.0;
                let y = ols[a].orders[b];
                assert(rests_in(ols, y));
                assert(rests(book, y));
                assert(level_wf(ols[a], opp));
                let (c, d) = choose|c: int, d: int|
                    0 <= c < own.len() && 0 <= d < own[c].orders.len() && #[trigger] own[c].orders[d] == x;
                assert(level_wf(own[c], o.side));
                assert(book.index[x.id.0] == (x.side, x.price));
                assert(book.index[y.id.0] == (y.side, y.price));
            }
        }
        let b1 = crate::book_model::after_match(book, o);
        assert(b1.side_levels(opp) == m.0 && b1.side_levels(o.side) == own && b1.index == idx1);
        if rests_after_match(o, sum_qty(m.1)) {
            let t = matched_taker(book, o);
            let own2 = rest_into(own, t);
            assert forall|a: int, b: int|
                0 <= a < own.len() && 0 <= b < own[a].orders.len() implies #[trigger] own[a].orders[b].id
                    != t.id by {
                assert(rests_in(own, own[a].orders[b]));
            }
            lemma_rest_into_keys(own, t);
            let b2 = insert_result(book, o, now).0;
            assert(b2.side_levels(o.side) == own2 && b2.side_levels(opp) == m.0);
            assert(b2.index == idx1.insert(o.id.0, (o.side, o.price)));
            assert(unique_ids(b2.bids) && unique_ids(b2.asks)) by {
                match o.side {
                    Side::Bid => {},
                    Side::Ask => {},
                }
            }
            assert forall|x: Order| #[trigger] rests(b2, x) implies b2.index.contains_key(x.id.0)
                && b2.index[x.id.0] == (x.side, x.price) by {
                assert(rests_in(own2, x) || rests_in(m.0, x)) by {
                    match o.side {
                        Side::Bid => {},
                        Side::Ask => {},
                    }
                }
            }
        } else {
            let b2 = insert_result(book, o, now).0;
            assert(b2 == b1);
            assert forall|x: Order| #[trigger] rests(b2, x) implies b2.index.contains_key(x.id.0)
                && b2.index[x.id.0] == (x.side, x.price) by {
                assert(rests_in(own, x) || rests_in(m.0, x)) by {
                    match o.side {
                        Side::Bid => {},
                        Side::Ask => {},
                    }
                }
            }
            assert(unique_ids(b2.bids) && unique_ids(b2.asks)) by {
                match o.side {
                    Side::Bid => {},
                    Side::Ask => {},
                }
            }
        }
    }
}

/// The empty book's index is exact and holds no stale entries.
pub proof fn law_empty_book_indexed()
    ensures
        indexed(BookView { bids: Seq::empty(), asks: Seq::empty(), index: Map::empty() }),
        index_tight(BookView { bids: Seq::empty(), asks: Seq::empty(), index: Map::empty() }),
{
}

/// Cancelling undoes a resting submission whose identifier no resting
/// order carries, on a book whose index holds no stale entries (every
/// `OrderBook`): a good-till-cancelled limit order that does not cross the
/// book rests, and cancelling it gives back the order and the book as it
/// was.
pub proof fn law_cancel_undoes_insert_of_unused_id(book: BookView, o: Order)
    requires
        book.wf(),
        index_tight(book),
        o.order_type == OrderType::Limit,
        o.time_in_force == TimeInForce::GTC,
        o.filled_quantity < o.quantity,
        insert_admissible(book, o, 0),
        book.side_levels(opposite(o.side)).len() == 0 || !crosses(
            o.side,
            book.side_levels(opposite(o.side))[0].price,
            o.price,
        ),
        forall|x: Order| #[trigger] rests(book, x) ==> x.id != o.id,
    ensures
        insert_result(book, o, 0).1.len() == 0,
        cancel_result(insert_result(book, o, 0).0, o.id) == (book, Some(o)),
{
    if book.index.contains_key(o.id.0) {
        let x = choose|x: Order| #[trigger] rests(book, x) && x.id.0 == o.id.0;
        assert(x.id == o.id);
    }
    let same = book.side_levels(o.side);
    assert forall|i: int, j: int|
        0 <= i < same.len() && 0 <= j < same[i].orders.len() implies (#[trigger] same[i].orders[j]).id
        != o.id by {
        assert(rests_in(same, same[i].orders[j]));
        assert(rests(book, same[i].orders[j])) by {
            match o.side {
                Side::Bid => {},
                Side::Ask => {},
            }
        }
    }
    law_cancel_undoes_resting_insert(book, o);
}

} // verus!
