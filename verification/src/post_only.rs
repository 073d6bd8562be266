//! Post-only checks and mass cancellation.
//!
//! A post-only order is accepted only if it would rest without trading.
//! Mass cancellation cancels every resting order of one or both sides.

use vstd::prelude::*;

use crate::book::OrderBook;
use crate::book_model::{cancel_seq, level_ids, BookView};
use crate::order::{Order, OrderId, OrderType, Side};

verus! {

/// Outcome of a post-only check.
#[derive(Debug, Clone, PartialEq, Eq, Structural)]
pub enum PostOnlyResult {
    /// The order would rest on the book (passive).
    WouldRest,
    /// The order would trade immediately (aggressive), so it is refused.
    WouldMatch,
    /// Market orders cannot be post-only.
    InvalidOrderType,
}

/// Post-only verdict for `order` against a book whose best prices are
/// those of `book`.
pub open spec fn post_only_verdict(order: Order, book: BookView) -> PostOnlyResult {
    if order.order_type is Market {
        PostOnlyResult::InvalidOrderType
    } else {
        match order.side {
            Side::Bid => match book.best_ask() {
                Some(a) => if order.price >= a {
                    PostOnlyResult::WouldMatch
                } else {
                    PostOnlyResult::WouldRest
                },
                None => PostOnlyResult::WouldRest,
            },
            Side::Ask => match book.best_bid() {
                Some(b) => if order.price <= b {
                    PostOnlyResult::WouldMatch
                } else {
                    PostOnlyResult::WouldRest
                },
                None => PostOnlyResult::WouldRest,
            },
        }
    }
}

/// Whether `order` may be accepted as post-only: it must be a priced order
/// that does not reach the best opposite price.
pub fn check_post_only(order: &Order, book: &OrderBook) -> (r: PostOnlyResult)
    ensures
        r == post_only_verdict(*order, book@),
{
    if let OrderType::Market = order.order_type {
        return PostOnlyResult::InvalidOrderType;
    }
    match order.side {
        Side::Bid => {
            if let Some(best_ask) = book.best_ask() {
                if order.price >= best_ask {
                    return PostOnlyResult::WouldMatch;
                }
            }
        },
        Side::Ask => {
            if let Some(best_bid) = book.best_bid() {
                if order.price <= best_bid {
                    return PostOnlyResult::WouldMatch;
                }
            }
        },
    }
    PostOnlyResult::WouldRest
}

/// Outcome of a mass cancellation.
#[derive(Debug, Clone)]
pub struct CancelAllResult {
    /// Identifiers that were submitted for cancellation, in order.
    pub cancelled_ids: Vec<OrderId>,
    /// Number of identifiers submitted.
    pub count: usize,
}

/// Cancel, by identifier, every order resting on `side` (best level first,
/// FIFO within a level).
pub fn cancel_all_side(book: &mut OrderBook, side: Side) -> (r: CancelAllResult)
    ensures
        r.cancelled_ids@ == level_ids(old(book)@.side_levels(side)),
        r.count == r.cancelled_ids@.len(),
        final(book)@ == cancel_seq(old(book)@, level_ids(old(book)@.side_levels(side))).0,
        final(book)@.wf(),
{
    proof {
        use_type_invariant(&*book);
    }
    let ids = book.all_order_ids_by_side(side);
    let count = ids.len();
    let ghost book0 = book@;
    let ghost all = ids@;
    let mut k: usize = 0;
    while k < ids.len()
        invariant
            0 <= k <= ids@.len(),
            ids@ == all,
            book0.wf(),
            book@ == cancel_seq(book0, all.take(k as int)).0,
            book@.wf(),
        decreases ids@.len() - k,
    {
        proof {
            assert(all.take(k + 1).drop_last() =~= all.take(k as int));
        }
        let _ = book.cancel(ids[k]);
        k = k + 1;
    }
    proof {
        assert(all.take(ids@.len() as int) =~= all);
    }
    CancelAllResult { cancelled_ids: ids, count }
}

/// Cancel every resting order, bid side first, then ask side.
pub fn cancel_all(book: &mut OrderBook) -> (r: CancelAllResult)
    ensures
        ({
            let bid_ids = level_ids(old(book)@.bids);
            let mid = cancel_seq(old(book)@, bid_ids).0;
            let ask_ids = level_ids(mid.asks);
            &&& r.cancelled_ids@ == bid_ids + ask_ids
            &&& r.count == r.cancelled_ids@.len()
            &&& final(book)@ == cancel_seq(mid, ask_ids).0
        }),
        final(book)@.wf(),
{
    let bid_result = cancel_all_side(book, Side::Bid);
    let ask_result = cancel_all_side(book, Side::Ask);
    let mut cancelled_ids = bid_result.cancelled_ids;
    let mut rest = ask_result.cancelled_ids;
    cancelled_ids.append(&mut rest);
    let count = cancelled_ids.len();
    CancelAllResult { cancelled_ids, count }
}

/// Only market orders are invalid for post-only; any other order would
/// match exactly when the best opposite price exists and its own price
/// reaches it (a bid at or above the best ask, an ask at or below the best
/// bid), and would rest otherwise.
pub proof fn law_post_only_verdict(order: Order, book: BookView)
    ensures
        (post_only_verdict(order, book) == PostOnlyResult::InvalidOrderType) <==> order.order_type is Market,
        !(order.order_type is Market) ==> ((post_only_verdict(order, book)
            == PostOnlyResult::WouldMatch) <==> match order.side {
            Side::Bid => book.asks.len() > 0 && order.price >= book.asks[0].price,
            Side::Ask => book.bids.len() > 0 && order.price <= book.bids[0].price,
        }),
        !(order.order_type is Market) ==> (post_only_verdict(order, book)
            == PostOnlyResult::WouldMatch || post_only_verdict(order, book)
            == PostOnlyResult::WouldRest),
{
}

} // verus!
