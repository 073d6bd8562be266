//! Position tracking and mark-to-market P&L calculation.
//!
//! Prices and P&L values are `i64` ticks. The average entry price is kept
//! with exact integer arithmetic (division truncating toward zero).

use std::collections::HashMap;

use vstd::prelude::*;

use crate::book_model::Fill;
use crate::order::Side;

verus! {

broadcast use vstd::std_specs::hash::group_hash_axioms;

/// Open position and P&L state for a single instrument.
#[derive(Debug, Clone, PartialEq, Eq, Structural)]
pub struct Position {
    /// Hash of the instrument symbol, used as the map key.
    pub symbol_hash: u64,
    /// Signed size: positive = long, negative = short, zero = flat.
    pub net_quantity: i64,
    /// Weighted-average entry price in ticks.
    pub avg_entry_price: i64,
    /// P&L realised by closing positions, in ticks.
    pub realized_pnl: i64,
    /// P&L of the open position at the last mark-to-market price.
    pub unrealized_pnl: i64,
    /// Number of fills applied to this position.
    pub trade_count: u64,
}

/// The flat position of `symbol_hash`.
pub open spec fn flat_position(symbol_hash: u64) -> Position {
    Position {
        symbol_hash,
        net_quantity: 0,
        avg_entry_price: 0,
        realized_pnl: 0,
        unrealized_pnl: 0,
        trade_count: 0,
    }
}

impl Position {
    /// Create a flat (zero) position for the given symbol hash.
    pub fn new(symbol_hash: u64) -> (p: Self)
        ensures
            p == flat_position(symbol_hash),
    {
        Position {
            symbol_hash,
            net_quantity: 0,
            avg_entry_price: 0,
            realized_pnl: 0,
            unrealized_pnl: 0,
            trade_count: 0,
        }
    }
}

/// Integer division truncating toward zero, as Rust's `/` on signed values.
pub open spec fn trunc_div(n: int, d: int) -> int {
    if n == 0 {
        0
    } else if n > 0 && d > 0 {
        n / d
    } else if n < 0 && d < 0 {
        (n * -1) / (d * -1)
    } else if n < 0 {
        ((n * -1) / d) * -1
    } else {
        (n / (d * -1)) * -1
    }
}

/// Signed quantity of a fill for a taker of `side`: the lot count read as
/// an `i64`, negated for a sale.
pub open spec fn signed_qty(fill: Fill, side: Side) -> int {
    match side {
        Side::Bid => (fill.quantity as i64) as int,
        Side::Ask => -((fill.quantity as i64) as int),
    }
}

/// `prev` and `delta` are both positive or both negative.
pub open spec fn same_direction(prev: int, delta: int) -> bool {
    (prev > 0 && delta > 0) || (prev < 0 && delta < 0)
}

/// Lots closed when a fill of `qty` lots reduces a position of `prev`:
/// the smaller of the two magnitudes, read back as an `i64`.
pub open spec fn close_qty(prev: int, qty: u64) -> int {
    let a = if prev < 0 {
        -prev
    } else {
        prev
    };
    let c = if a < qty {
        a
    } else {
        qty as int
    };
    ((c as u64) as i64) as int
}

/// Realised P&L per closed lot for a position of sign `prev`.
pub open spec fn pnl_per_lot(prev: int, avg: i64, price: i64) -> int {
    if prev > 0 {
        price - avg
    } else {
        avg - price
    }
}

/// The position after applying `fill` for a taker of `side`.
pub open spec fn apply_fill_to(pos: Position, fill: Fill, side: Side) -> Position {
    let p = Position { trade_count: (pos.trade_count + 1) as u64, ..pos };
    let delta = signed_qty(fill, side);
    let prev = p.net_quantity as int;
    let new_net = prev + delta;
    if prev == 0 {
        Position { avg_entry_price: fill.price, net_quantity: new_net as i64, ..p }
    } else if same_direction(prev, delta) {
        let num = prev * p.avg_entry_price + delta * fill.price;
        Position {
            avg_entry_price: trunc_div(num, new_net) as i64,
            net_quantity: new_net as i64,
            ..p
        }
    } else {
        let realized = p.realized_pnl + pnl_per_lot(prev, p.avg_entry_price, fill.price)
            * close_qty(prev, fill.quantity);
        let base = Position { realized_pnl: realized as i64, net_quantity: new_net as i64, ..p };
        if new_net == 0 {
            Position { avg_entry_price: 0, unrealized_pnl: 0, ..base }
        } else if (prev > 0 && new_net < 0) || (prev < 0 && new_net > 0) {
            Position { avg_entry_price: fill.price, ..base }
        } else {
            base
        }
    }
}

/// Applying `fill` to `pos` stays within `i64`/`u64` ranges.
pub open spec fn apply_fill_admissible(pos: Position, fill: Fill, side: Side) -> bool {
    let delta = signed_qty(fill, side);
    let prev = pos.net_quantity as int;
    &&& pos.trade_count < u64::MAX
    &&& side == Side::Ask ==> (fill.quantity as i64) != i64::MIN
    &&& i64::MIN <= prev + delta <= i64::MAX
    &&& prev != 0 && !same_direction(prev, delta) ==> {
        let lot = pnl_per_lot(prev, pos.avg_entry_price, fill.price);
        &&& i64::MIN <= lot <= i64::MAX
        &&& i64::MIN <= lot * close_qty(prev, fill.quantity) <= i64::MAX
        &&& i64::MIN <= pos.realized_pnl + lot * close_qty(prev, fill.quantity) <= i64::MAX
    }
}

/// The position after revaluation at `price`.
pub open spec fn mark_position(pos: Position, price: i64) -> Position {
    if pos.net_quantity == 0 {
        Position { unrealized_pnl: 0, ..pos }
    } else {
        Position {
            unrealized_pnl: (pos.net_quantity * (price - pos.avg_entry_price)) as i64,
            ..pos
        }
    }
}

/// Tracks open positions across multiple instruments.
pub struct PositionTracker {
    positions: HashMap<u64, Position>,
}

impl View for PositionTracker {
    type V = Map<u64, Position>;

    closed spec fn view(&self) -> Map<u64, Position> {
        self.positions@
    }
}

/// Every position of `m` is stored under its own symbol hash.
pub open spec fn keyed_by_symbol(m: Map<u64, Position>) -> bool {
    forall|k: u64| m.contains_key(k) ==> #[trigger] m[k].symbol_hash == k
}

impl PositionTracker {
    /// Positions are stored under their own symbol hash.
    #[verifier::type_invariant]
    spec fn positions_keyed(&self) -> bool {
        keyed_by_symbol(self.positions@)
    }

    /// Create an empty position tracker.
    pub fn new() -> (t: Self)
        ensures
            t@ == Map::<u64, Position>::empty(),
            keyed_by_symbol(t@),
    {
        PositionTracker { positions: HashMap::new() }
    }

    /// The position of `symbol_hash`, if any fill has been applied to it.
    pub fn get(&self, symbol_hash: u64) -> (r: Option<&Position>)
        ensures
            match r {
                Some(p) => self@.contains_key(symbol_hash) && *p == self@[symbol_hash]
                    && p.symbol_hash == symbol_hash,
                None => !self@.contains_key(symbol_hash),
            },
    {
        proof {
            use_type_invariant(self);
        }
        self.positions.get(&symbol_hash)
    }

    /// Whether applying `fill` for a taker of `side` to the position of
    /// `symbol_hash` keeps every quantity, price and P&L within range, as
    /// [`Self::apply_fill`] requires.
    pub fn can_apply_fill(&self, symbol_hash: u64, fill: &Fill, side: Side) -> (r: bool)
        ensures
            r == apply_fill_admissible(
                if self@.contains_key(symbol_hash) {
                    self@[symbol_hash]
                } else {
                    flat_position(symbol_hash)
                },
                *fill,
                side,
            ),
    {
        let (trade_count, prev_net, avg, realized_pnl) = match self.positions.get(&symbol_hash) {
            Some(p) => (p.trade_count, p.net_quantity, p.avg_entry_price, p.realized_pnl),
            None => (0, 0, 0, 0),
        };
        if trade_count == u64::MAX {
            return false;
        }
        let q = #[verifier::truncate] (fill.quantity as i64);
        let delta: i128 = match side {
            Side::Bid => q as i128,
            Side::Ask => {
                if q == i64::MIN {
                    return false;
                }
                -(q as i128)
            },
        };
        let prev = prev_net as i128;
        let new_net = prev + delta;
        if new_net < i64::MIN as i128 || new_net > i64::MAX as i128 {
            return false;
        }
        if prev == 0 || (prev > 0 && delta > 0) || (prev < 0 && delta < 0) {
            return true;
        }
        let lot: i128 = if prev > 0 {
            fill.price as i128 - avg as i128
        } else {
            avg as i128 - fill.price as i128
        };
        let magnitude: u64 = if prev_net >= 0 {
            prev_net as u64
        } else {
            ((-(prev_net + 1)) as u64) + 1
        };
        let close: u64 = if magnitude < fill.quantity {
            magnitude
        } else {
            fill.quantity
        };
        let close_i64 = #[verifier::truncate] (close as i64);
        proof {
            assert(close_i64 == close_qty(prev_net as int, fill.quantity));
            lemma_i64_range_product(lot as int, close_i64 as int);
        }
        if lot < i64::MIN as i128 || lot > i64::MAX as i128 {
            return false;
        }
        let realized = lot * (close_i64 as i128);
        if realized < i64::MIN as i128 || realized > i64::MAX as i128 {
            return false;
        }
        let total = realized_pnl as i128 + realized;
        total >= i64::MIN as i128 && total <= i64::MAX as i128
    }

    /// Apply a fill to the position of `symbol_hash` (created flat if
    /// absent). `side` is the taker's side: `Bid` adds to the long side,
    /// `Ask` to the short side.
    pub fn apply_fill(&mut self, symbol_hash: u64, fill: &Fill, side: Side)
        requires
            apply_fill_admissible(
                if old(self)@.contains_key(symbol_hash) {
                    old(self)@[symbol_hash]
                } else {
                    flat_position(symbol_hash)
                },
                *fill,
                side,
            ),
        ensures
            final(self)@ == old(self)@.insert(
                symbol_hash,
                apply_fill_to(
                    if old(self)@.contains_key(symbol_hash) {
                        old(self)@[symbol_hash]
                    } else {
                        flat_position(symbol_hash)
                    },
                    *fill,
                    side,
                ),
            ),
            keyed_by_symbol(final(self)@),
    {
        proof {
            use_type_invariant(&*self);
        }
        let mut positions: HashMap<u64, Position> = HashMap::new();
        std::mem::swap(&mut positions, &mut self.positions);
        let ghost m0 = positions@;
        let mut pos = match positions.remove(&symbol_hash) {
            Some(p) => p,
            None => Position::new(symbol_hash),
        };
        let ghost p0 = pos;
        assert(p0 == (if m0.contains_key(symbol_hash) {
            m0[symbol_hash]
        } else {
            flat_position(symbol_hash)
        }));
        pos.trade_count = pos.trade_count + 1;
        let q = #[verifier::truncate] (fill.quantity as i64);
        let signed_qty: i64 = match side {
            Side::Bid => q,
            Side::Ask => -q,
        };
        let prev_net = pos.net_quantity;
        let new_net = prev_net + signed_qty;
        if prev_net == 0 {
            pos.avg_entry_price = fill.price;
            pos.net_quantity = new_net;
        } else if (prev_net > 0 && signed_qty > 0) || (prev_net < 0 && signed_qty < 0) {
            let a = prev_net as i128;
            let b = pos.avg_entry_price as i128;
            let c = signed_qty as i128;
            let d = fill.price as i128;
            proof {
                lemma_weighted_sum_bounds(a as int, b as int, c as int, d as int);
            }
            let numerator = a * b + c * d;
            let denominator = new_net as i128;
            proof {
                lemma_trunc_div_bound(numerator as int, denominator as int);
            }
            let quotient = match numerator.checked_div(denominator) {
                Some(x) => x,
                None => 0,
            };
            pos.avg_entry_price = #[verifier::truncate] (quotient as i64);
            pos.net_quantity = new_net;
            assert(quotient == trunc_div(numerator as int, new_net as int));
        } else {
            let magnitude: u64 = if prev_net >= 0 {
                prev_net as u64
            } else {
                ((-(prev_net + 1)) as u64) + 1
            };
            let close: u64 = if magnitude < fill.quantity {
                magnitude
            } else {
                fill.quantity
            };
            let close_i64 = #[verifier::truncate] (close as i64);
            let pnl_per_lot = if prev_net > 0 {
                fill.price - pos.avg_entry_price
            } else {
                pos.avg_entry_price - fill.price
            };
            pos.realized_pnl = pos.realized_pnl + pnl_per_lot * close_i64;
            if new_net == 0 {
                pos.avg_entry_price = 0;
                pos.unrealized_pnl = 0;
            } else if (prev_net > 0 && new_net < 0) || (prev_net < 0 && new_net > 0) {
                pos.avg_entry_price = fill.price;
            }
            pos.net_quantity = new_net;
            assert(close_i64 == close_qty(prev_net as int, fill.quantity));
        }
        let _ = positions.insert(symbol_hash, pos);
        proof {
            assert(positions@ =~= m0.insert(symbol_hash, pos));
        }
        self.positions = positions;
    }

    /// Revalue the unrealised P&L of `symbol_hash` at `current_price`:
    /// `net_quantity * (current_price - avg_entry_price)`, truncated to
    /// `i64`, or zero for a flat position. Unknown symbols are ignored.
    pub fn mark_to_market(&mut self, symbol_hash: u64, current_price: i64)
        requires
            old(self)@.contains_key(symbol_hash) && old(self)@[symbol_hash].net_quantity != 0
                ==> i64::MIN <= current_price - old(self)@[symbol_hash].avg_entry_price
                <= i64::MAX,
        ensures
            final(self)@ == (if old(self)@.contains_key(symbol_hash) {
                old(self)@.insert(
                    symbol_hash,
                    mark_position(old(self)@[symbol_hash], current_price),
                )
            } else {
                old(self)@
            }),
            keyed_by_symbol(final(self)@),
    {
        proof {
            use_type_invariant(&*self);
        }
        let mut positions: HashMap<u64, Position> = HashMap::new();
        std::mem::swap(&mut positions, &mut self.positions);
        let ghost m0 = positions@;
        match positions.remove(&symbol_hash) {
            Some(mut pos) => {
                if pos.net_quantity == 0 {
                    pos.unrealized_pnl = 0;
                } else {
                    let diff = current_price - pos.avg_entry_price;
                    let a = pos.net_quantity as i128;
                    let b = diff as i128;
                    proof {
                        lemma_i64_product_bound(a as int, b as int);
                    }
                    let pnl = a * b;
                    pos.unrealized_pnl = #[verifier::truncate] (pnl as i64);
                }
                let _ = positions.insert(symbol_hash, pos);
                proof {
                    assert(positions@ =~= m0.insert(symbol_hash, mark_position(m0[symbol_hash], current_price)));
                }
            },
            None => {
                proof {
                    assert(positions@ =~= m0);
                }
            },
        }
        self.positions = positions;
    }
}

impl Default for PositionTracker {
    fn default() -> (t: Self)
        ensures
            t@ == Map::<u64, Position>::empty(),
            keyed_by_symbol(t@),
    {
        Self::new()
    }
}

/// Opening from flat and closing at another price: a position opened from
/// flat with a buy of `q` lots at `entry` and then closed with a sale of
/// `q` lots at `exit` is flat, with average entry and unrealised P&L zero,
/// and has realised `(exit - entry) * q`; marking it at any price leaves
/// the unrealised P&L at zero.
pub proof fn law_open_close_round_trip(pos: Position, buy: Fill, sell: Fill, mark: i64)
    requires
        pos.net_quantity == 0,
        pos.trade_count < u64::MAX - 1,
        0 < buy.quantity <= i64::MAX,
        sell.quantity == buy.quantity,
        i64::MIN <= sell.price - buy.price <= i64::MAX,
        i64::MIN <= (sell.price - buy.price) * buy.quantity <= i64::MAX,
        i64::MIN <= pos.realized_pnl + (sell.price - buy.price) * buy.quantity <= i64::MAX,
    ensures
        apply_fill_admissible(pos, buy, Side::Bid),
        apply_fill_admissible(apply_fill_to(pos, buy, Side::Bid), sell, Side::Ask),
        ({
            let after = apply_fill_to(apply_fill_to(pos, buy, Side::Bid), sell, Side::Ask);
            &&& after.net_quantity == 0
            &&& after.avg_entry_price == 0
            &&& after.unrealized_pnl == 0
            &&& after.realized_pnl == pos.realized_pnl + (sell.price - buy.price) * buy.quantity
            &&& after.trade_count == pos.trade_count + 2
            &&& mark_position(after, mark).unrealized_pnl == 0
        }),
{
    let q = buy.quantity as int;
    assert((buy.quantity as i64) as int == q);
    let p1 = apply_fill_to(pos, buy, Side::Bid);
    assert(p1.net_quantity == q);
    assert(p1.avg_entry_price == buy.price);
    assert(close_qty(q, sell.quantity) == q);
}

/// Adding to a position in its own direction moves the average entry to
/// the quantity-weighted average of the old entry and the fill price
/// (divided with truncation toward zero, read as an `i64`), and realises
/// nothing.
pub proof fn law_same_direction_weighted_average(pos: Position, fill: Fill, side: Side)
    requires
        apply_fill_admissible(pos, fill, side),
        same_direction(pos.net_quantity as int, signed_qty(fill, side)),
    ensures
        ({
            let after = apply_fill_to(pos, fill, side);
            let prev = pos.net_quantity as int;
            let delta = signed_qty(fill, side);
            &&& after.net_quantity == prev + delta
            &&& after.avg_entry_price == trunc_div(
                prev * pos.avg_entry_price + delta * fill.price,
                prev + delta,
            ) as i64
            &&& after.realized_pnl == pos.realized_pnl
        }),
{
    let prev = pos.net_quantity as int;
    let delta = signed_qty(fill, side);
    lemma_weighted_sum_bounds(prev, pos.avg_entry_price as int, delta, fill.price as int);
    let num = prev * pos.avg_entry_price + delta * fill.price;
    lemma_trunc_div_bound(num, prev + delta);
}

proof fn lemma_trunc_div_bound(n: int, d: int)
    requires
        d != 0,
    ensures
        (n >= 0 ==> -n <= trunc_div(n, d) <= n),
        (n < 0 ==> n <= trunc_div(n, d) <= -n),
{
    if n > 0 && d > 0 {
        assert(0 <= n / d <= n) by (nonlinear_arith)
            requires
                n > 0,
                d > 0,
        ;
    } else if n < 0 && d < 0 {
        assert(0 <= (n * -1) / (d * -1) <= n * -1) by (nonlinear_arith)
            requires
                n < 0,
                d < 0,
        ;
    } else if n < 0 {
        assert(0 <= (n * -1) / d <= n * -1) by (nonlinear_arith)
            requires
                n < 0,
                d > 0,
        ;
    } else if n > 0 {
        assert(0 <= n / (d * -1) <= n) by (nonlinear_arith)
            requires
                n > 0,
                d < 0,
        ;
    }
}

proof fn lemma_i64_range_product(a: int, b: int)
    requires
        -0xffff_ffff_ffff_ffff <= a <= 0xffff_ffff_ffff_ffff,
        i64::MIN <= b <= i64::MAX,
    ensures
        i128::MIN <= a * b <= i128::MAX,
{
    assert(-0x8000_0000_0000_0000_0000_0000_0000_0000 <= a * b <= 0x7fff_ffff_ffff_ffff_ffff_ffff_ffff_ffff)
        by (nonlinear_arith)
        requires
            -0xffff_ffff_ffff_ffff <= a <= 0xffff_ffff_ffff_ffff,
            -0x8000_0000_0000_0000 <= b <= 0x7fff_ffff_ffff_ffff,
    ;
}

proof fn lemma_i64_product_bound(a: int, b: int)
    requires
        i64::MIN <= a <= i64::MAX,
        i64::MIN <= b <= i64::MAX,
    ensures
        -0x4000_0000_0000_0000_0000_0000_0000_0000 <= a * b <= 0x4000_0000_0000_0000_0000_0000_0000_0000,
{
    assert(-0x4000_0000_0000_0000_0000_0000_0000_0000 <= a * b <= 0x4000_0000_0000_0000_0000_0000_0000_0000)
        by (nonlinear_arith)
        requires
            -0x8000_0000_0000_0000 <= a <= 0x7fff_ffff_ffff_ffff,
            -0x8000_0000_0000_0000 <= b <= 0x7fff_ffff_ffff_ffff,
    ;
}

proof fn lemma_weighted_sum_bounds(a: int, b: int, c: int, d: int)
    requires
        i64::MIN <= a <= i64::MAX,
        i64::MIN <= b <= i64::MAX,
        i64::MIN <= c <= i64::MAX,
        i64::MIN <= d <= i64::MAX,
        i64::MIN <= a + c <= i64::MAX,
        (a > 0 && c > 0) || (a < 0 && c < 0),
    ensures
        -0x4000_0000_0000_0000_0000_0000_0000_0000 <= a * b + c * d
            <= 0x4000_0000_0000_0000_0000_0000_0000_0000,
        i128::MIN <= a * b <= i128::MAX,
        i128::MIN <= c * d <= i128::MAX,
{
    lemma_i64_product_bound(a, b);
    lemma_i64_product_bound(c, d);
    // |a| + |c| <= 2^63, and |b|, |d| <= 2^63
    assert(-0x4000_0000_0000_0000_0000_0000_0000_0000 <= a * b + c * d
        <= 0x4000_0000_0000_0000_0000_0000_0000_0000)
        by (nonlinear_arith)
        requires
            -0x8000_0000_0000_0000 <= b <= 0x7fff_ffff_ffff_ffff,
            -0x8000_0000_0000_0000 <= d <= 0x7fff_ffff_ffff_ffff,
            (a > 0 && c > 0 && a + c <= 0x7fff_ffff_ffff_ffff) || (a < 0 && c < 0 && a + c
                >= -0x8000_0000_0000_0000),
    ;
}

/// A fill against the direction of an open position closes the smaller of
/// the two sizes at the fill price: the net quantity moves by the fill's
/// signed size, the closed lots realise `(fill price - entry) * lots` for a
/// long (the negation for a short), and the entry price is kept while the
/// position only shrinks, reset to zero when it goes flat, and set to the
/// fill price when the position reverses (long to short as well as short to
/// long), where the excess opens at the fill price.
pub proof fn law_reducing_fill(pos: Position, fill: Fill, side: Side)
    requires
        apply_fill_admissible(pos, fill, side),
        0 < fill.quantity <= i64::MAX,
        side == Side::Bid ==> pos.net_quantity < 0,
        side == Side::Ask ==> pos.net_quantity > 0,
    ensures
        ({
            let after = apply_fill_to(pos, fill, side);
            let prev = pos.net_quantity as int;
            let q = fill.quantity as int;
            let size = if prev > 0 {
                prev
            } else {
                -prev
            };
            let closed = if q < size {
                q
            } else {
                size
            };
            let new_net = if side == Side::Bid {
                prev + q
            } else {
                prev - q
            };
            &&& after.net_quantity == new_net
            &&& after.realized_pnl == pos.realized_pnl + (fill.price - pos.avg_entry_price) * (
            if prev > 0 {
                closed
            } else {
                -closed
            })
            &&& q < size ==> after.avg_entry_price == pos.avg_entry_price
            &&& q == size ==> after.avg_entry_price == 0 && after.unrealized_pnl == 0
            &&& q > size ==> after.avg_entry_price == fill.price && (new_net > 0 <==> prev < 0)
            &&& after.trade_count == pos.trade_count + 1
            &&& after.symbol_hash == pos.symbol_hash
        }),
{
    let prev = pos.net_quantity as int;
    let q = fill.quantity as int;
    assert((fill.quantity as i64) as int == q);
    let size = if prev > 0 {
        prev
    } else {
        -prev
    };
    let closed = if q < size {
        q
    } else {
        size
    };
    assert(close_qty(prev, fill.quantity) == closed) by {
        assert(0 <= closed <= i64::MAX);
        assert(((closed as u64) as i64) as int == closed);
    }
    let lot = pnl_per_lot(prev, pos.avg_entry_price, fill.price);
    if prev > 0 {
        assert(lot * closed == (fill.price - pos.avg_entry_price) * closed);
    } else {
        assert(lot * closed == (fill.price - pos.avg_entry_price) * (-closed)) by (nonlinear_arith)
            requires
                lot == pos.avg_entry_price - fill.price,
        ;
    }
}

/// Marking to market values the open lots at the mark price:
/// unrealised P&L is `net quantity * (price - entry)` (zero when flat),
/// whatever has been realised; nothing else changes.
pub proof fn law_mark_values_open_lots(pos: Position, price: i64)
    requires
        i64::MIN <= pos.net_quantity * (price - pos.avg_entry_price) <= i64::MAX,
    ensures
        ({
            let m = mark_position(pos, price);
            &&& m.unrealized_pnl == pos.net_quantity * (price - pos.avg_entry_price)
            &&& m == Position { unrealized_pnl: m.unrealized_pnl, ..pos }
        }),
{
}

/// `trunc_div` is division truncating toward zero: the remainder
/// `n - q * d` is smaller than `d` in magnitude and is zero or has the sign
/// of `n`.
pub proof fn law_trunc_div_truncates(n: int, d: int)
    requires
        d != 0,
    ensures
        ({
            let r = n - trunc_div(n, d) * d;
            &&& -(if d > 0 {
                d
            } else {
                -d
            }) < r < (if d > 0 {
                d
            } else {
                -d
            })
            &&& r == 0 || (r > 0) == (n > 0)
        }),
{
    let q = trunc_div(n, d);
    if n > 0 && d > 0 {
        assert(n == d * (n / d) + n % d && 0 <= n % d < d) by (nonlinear_arith)
            requires
                d > 0,
        ;
        assert(q * d == d * (n / d)) by (nonlinear_arith)
            requires
                q == n / d,
        ;
    } else if n < 0 && d < 0 {
        let a = -n;
        let b = -d;
        assert(a == b * (a / b) + a % b && 0 <= a % b < b) by (nonlinear_arith)
            requires
                b > 0,
        ;
        assert(q * d == -(b * (a / b))) by (nonlinear_arith)
            requires
                q == a / b,
                b == -d,
        ;
    } else if n < 0 {
        let a = -n;
        assert(a == d * (a / d) + a % d && 0 <= a % d < d) by (nonlinear_arith)
            requires
                d > 0,
        ;
        assert(q * d == -(d * (a / d))) by (nonlinear_arith)
            requires
                q == -(a / d),
        ;
    } else if n > 0 {
        let b = -d;
        assert(n == b * (n / b) + n % b && 0 <= n % b < b) by (nonlinear_arith)
            requires
                b > 0,
        ;
        assert(q * d == b * (n / b)) by (nonlinear_arith)
            requires
                q == -(n / b),
                b == -d,
        ;
    }
}

/// A fill on a flat position opens it at the fill price: long by the fill's
/// quantity for a bid, short for an ask, with nothing realised.
pub proof fn law_opening_fill(pos: Position, fill: Fill, side: Side)
    requires
        apply_fill_admissible(pos, fill, side),
        pos.net_quantity == 0,
        fill.quantity <= i64::MAX,
    ensures
        ({
            let after = apply_fill_to(pos, fill, side);
            &&& after.net_quantity == (if side == Side::Bid {
                fill.quantity as int
            } else {
                -(fill.quantity as int)
            })
            &&& after.avg_entry_price == fill.price
            &&& after.realized_pnl == pos.realized_pnl
            &&& after.trade_count == pos.trade_count + 1
            &&& after.symbol_hash == pos.symbol_hash
        }),
{
    assert((fill.quantity as i64) as int == fill.quantity as int);
}

} // verus!
