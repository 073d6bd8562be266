//! Pre-trade risk limits: order size bounds, notional cap, position limit
//! and an order-rate limit per period.

use vstd::prelude::*;
use vstd::string::StringExecFns;

use crate::order::{Order, Side};

verus! {

/// Outcome of a risk check.
#[derive(Debug, Clone, PartialEq, Eq, Structural)]
pub enum RiskCheckResult {
    /// The order is within every limit.
    Passed,
    /// The order breaks the given limit.
    Rejected(RiskRejectReason),
}

/// The limit an order breaks.
#[derive(Debug, Clone, PartialEq, Eq, Structural)]
#[allow(inconsistent_fields)]
pub enum RiskRejectReason {
    /// Quantity above the maximum order size.
    MaxOrderSizeExceeded {
        /// Order quantity.
        requested: u64,
        /// Maximum.
        limit: u64,
    },
    /// Notional (price times quantity) above the maximum in magnitude.
    MaxNotionalExceeded {
        /// Notional of the order.
        notional: i128,
        /// Maximum.
        limit: i128,
    },
    /// Net position after the order above the limit in magnitude.
    PositionLimitExceeded {
        /// Position after the order.
        projected: i64,
        /// Maximum magnitude.
        limit: u64,
    },
    /// Too many orders in the current period.
    OrderRateLimitExceeded {
        /// Orders recorded in the period.
        count: u64,
        /// Maximum.
        limit: u64,
    },
    /// Quantity below the minimum order size.
    MinOrderSizeNotMet {
        /// Order quantity.
        requested: u64,
        /// Minimum.
        minimum: u64,
    },
}

/// Risk limit settings.
#[derive(Debug, Clone)]
pub struct RiskLimits {
    /// Maximum quantity of one order.
    pub max_order_size: u64,
    /// Minimum quantity of one order.
    pub min_order_size: u64,
    /// Maximum notional (price times quantity) of one order.
    pub max_notional: i128,
    /// Maximum magnitude of the net position.
    pub max_position: u64,
    /// Maximum number of orders per period.
    pub max_orders_per_period: u64,
    /// Checks are applied only when set.
    pub enabled: bool,
}

impl Default for RiskLimits {
    fn default() -> (l: Self)
        ensures
            l == (RiskLimits {
                max_order_size: 1_000_000,
                min_order_size: 1,
                max_notional: 1_000_000_000_000,
                max_position: 10_000_000,
                max_orders_per_period: 10_000,
                enabled: true,
            }),
    {
        RiskLimits {
            max_order_size: 1_000_000,
            min_order_size: 1,
            max_notional: 1_000_000_000_000,
            max_position: 10_000_000,
            max_orders_per_period: 10_000,
            enabled: true,
        }
    }
}

/// Position after an order of `order.side` for `order.quantity` lots (the
/// lot count read as an `i64`).
pub open spec fn projected_position(order: Order, current_position: i64) -> int {
    match order.side {
        Side::Bid => current_position + (order.quantity as i64),
        Side::Ask => current_position - (order.quantity as i64),
    }
}

/// `|x|`.
pub open spec fn abs(x: int) -> int {
    if x < 0 {
        -x
    } else {
        x
    }
}

/// The checks before the position limit all pass.
pub open spec fn passes_size_and_notional(limits: RiskLimits, order: Order) -> bool {
    &&& order.quantity >= limits.min_order_size
    &&& order.quantity <= limits.max_order_size
    &&& abs(order.price * order.quantity) <= limits.max_notional
}

/// Result of checking `order` against `limits` with `count` orders already
/// in the period and a current net position of `current_position`. The
/// checks apply in this order: minimum size, maximum size, notional,
/// position, rate.
pub open spec fn risk_check(
    limits: RiskLimits,
    count: u64,
    order: Order,
    current_position: i64,
) -> RiskCheckResult {
    let notional = order.price * order.quantity;
    let projected = projected_position(order, current_position);
    if !limits.enabled {
        RiskCheckResult::Passed
    } else if order.quantity < limits.min_order_size {
        RiskCheckResult::Rejected(
            RiskRejectReason::MinOrderSizeNotMet {
                requested: order.quantity,
                minimum: limits.min_order_size,
            },
        )
    } else if order.quantity > limits.max_order_size {
        RiskCheckResult::Rejected(
            RiskRejectReason::MaxOrderSizeExceeded {
                requested: order.quantity,
                limit: limits.max_order_size,
            },
        )
    } else if abs(notional) > limits.max_notional {
        RiskCheckResult::Rejected(
            RiskRejectReason::MaxNotionalExceeded {
                notional: notional as i128,
                limit: limits.max_notional,
            },
        )
    } else if abs(projected) > limits.max_position {
        RiskCheckResult::Rejected(
            RiskRejectReason::PositionLimitExceeded {
                projected: projected as i64,
                limit: limits.max_position,
            },
        )
    } else if count >= limits.max_orders_per_period {
        RiskCheckResult::Rejected(
            RiskRejectReason::OrderRateLimitExceeded {
                count,
                limit: limits.max_orders_per_period,
            },
        )
    } else {
        RiskCheckResult::Passed
    }
}

/// The position arithmetic of a check stays within `i64`: it is performed
/// once the size and notional checks have passed.
pub open spec fn risk_check_admissible(limits: RiskLimits, order: Order, current_position: i64) -> bool {
    limits.enabled && passes_size_and_notional(limits, order) ==> i64::MIN <= projected_position(
        order,
        current_position,
    ) <= i64::MAX
}

/// An order passes the risk check exactly when checks are disabled or it is
/// within every limit: size bounds, notional, position after the order and
/// the order rate.
pub proof fn law_risk_pass_iff_within_limits(
    limits: RiskLimits,
    count: u64,
    order: Order,
    current_position: i64,
)
    ensures
        (risk_check(limits, count, order, current_position) == RiskCheckResult::Passed) <==> (
        !limits.enabled || {
            &&& passes_size_and_notional(limits, order)
            &&& abs(projected_position(order, current_position)) <= limits.max_position
            &&& count < limits.max_orders_per_period
        }),
{
}

/// With checks enabled, the first limit an order breaks, in the order
/// minimum size, maximum size, notional (price times quantity), position
/// after the order (the current position plus a bid's quantity or minus an
/// ask's), order rate, is the reason it is rejected with, carrying the
/// offending value and the limit; an order that breaks none passes, and
/// every order passes when checks are disabled.
pub proof fn law_risk_first_broken_limit(
    limits: RiskLimits,
    count: u64,
    order: Order,
    current_position: i64,
)
    requires
        order.quantity <= i64::MAX,
    ensures
        ({
            let r = risk_check(limits, count, order, current_position);
            let q = order.quantity as int;
            let notional = order.price * q;
            let after = if order.side == Side::Bid {
                current_position + q
            } else {
                current_position - q
            };
            let size_ok = limits.min_order_size <= q <= limits.max_order_size;
            let notional_ok = -limits.max_notional <= notional <= limits.max_notional;
            let position_ok = -limits.max_position <= after <= limits.max_position;
            &&& !limits.enabled ==> r == RiskCheckResult::Passed
            &&& limits.enabled && q < limits.min_order_size ==> r == RiskCheckResult::Rejected(
                RiskRejectReason::MinOrderSizeNotMet {
                    requested: order.quantity,
                    minimum: limits.min_order_size,
                },
            )
            &&& limits.enabled && limits.min_order_size <= q && q > limits.max_order_size ==> r
                == RiskCheckResult::Rejected(
                RiskRejectReason::MaxOrderSizeExceeded {
                    requested: order.quantity,
                    limit: limits.max_order_size,
                },
            )
            &&& limits.enabled && size_ok && !notional_ok ==> r == RiskCheckResult::Rejected(
                RiskRejectReason::MaxNotionalExceeded {
                    notional: notional as i128,
                    limit: limits.max_notional,
                },
            )
            &&& limits.enabled && size_ok && notional_ok && !position_ok ==> r
                == RiskCheckResult::Rejected(
                RiskRejectReason::PositionLimitExceeded {
                    projected: after as i64,
                    limit: limits.max_position,
                },
            )
            &&& limits.enabled && size_ok && notional_ok && position_ok && count
                >= limits.max_orders_per_period ==> r == RiskCheckResult::Rejected(
                RiskRejectReason::OrderRateLimitExceeded {
                    count,
                    limit: limits.max_orders_per_period,
                },
            )
            &&& limits.enabled && size_ok && notional_ok && position_ok && count
                < limits.max_orders_per_period ==> r == RiskCheckResult::Passed
        }),
{
    assert((order.quantity as i64) as int == order.quantity as int);
}

/// Risk manager: limits plus an order counter for the current period.
#[derive(Debug)]
pub struct RiskManager {
    /// Risk limit settings.
    pub limits: RiskLimits,
    /// Orders recorded in the current period.
    orders_in_period: u64,
}

impl RiskManager {
    /// Orders recorded in the current period.
    pub closed spec fn period_count(&self) -> u64 {
        self.orders_in_period
    }

    /// The limit settings (the `limits` field).
    pub closed spec fn limit_settings(&self) -> RiskLimits {
        self.limits
    }

    /// A manager with `limits` and an empty period.
    pub fn new(limits: RiskLimits) -> (m: Self)
        ensures
            m.limit_settings() == limits,
            m.period_count() == 0,
    {
        RiskManager { limits, orders_in_period: 0 }
    }

    /// A manager with the default limits.
    pub fn with_defaults() -> (m: Self)
        ensures
            m.limit_settings() == (RiskLimits {
                max_order_size: 1_000_000,
                min_order_size: 1,
                max_notional: 1_000_000_000_000,
                max_position: 10_000_000,
                max_orders_per_period: 10_000,
                enabled: true,
            }),
            m.period_count() == 0,
    {
        Self::new(RiskLimits::default())
    }

    /// Check `order` against the limits, given the current net position.
    pub fn check_order(&self, order: &Order, current_position: i64) -> (r: RiskCheckResult)
        requires
            risk_check_admissible(self.limit_settings(), *order, current_position),
        ensures
            r == risk_check(self.limit_settings(), self.period_count(), *order, current_position),
    {
        if !self.limits.enabled {
            return RiskCheckResult::Passed;
        }
        if order.quantity < self.limits.min_order_size {
            return RiskCheckResult::Rejected(
                RiskRejectReason::MinOrderSizeNotMet {
                    requested: order.quantity,
                    minimum: self.limits.min_order_size,
                },
            );
        }
        if order.quantity > self.limits.max_order_size {
            return RiskCheckResult::Rejected(
                RiskRejectReason::MaxOrderSizeExceeded {
                    requested: order.quantity,
                    limit: self.limits.max_order_size,
                },
            );
        }
        let p = order.price as i128;
        let q = order.quantity as i128;
        proof {
            assert(-0x8000_0000_0000_0000_0000_0000_0000_0000 < p * q
                < 0x8000_0000_0000_0000_0000_0000_0000_0000) by (nonlinear_arith)
                requires
                    -0x8000_0000_0000_0000 <= p <= 0x7fff_ffff_ffff_ffff,
                    0 <= q <= 0xffff_ffff_ffff_ffff,
            ;
        }
        let notional = p * q;
        let magnitude = if notional < 0 {
            -notional
        } else {
            notional
        };
        if magnitude > self.limits.max_notional {
            return RiskCheckResult::Rejected(
                RiskRejectReason::MaxNotionalExceeded { notional, limit: self.limits.max_notional },
            );
        }
        let delta = #[verifier::truncate] (order.quantity as i64);
        let projected = match order.side {
            Side::Bid => current_position + delta,
            Side::Ask => current_position - delta,
        };
        let projected_magnitude: u64 = if projected >= 0 {
            projected as u64
        } else {
            ((-(projected + 1)) as u64) + 1
        };
        if projected_magnitude > self.limits.max_position {
            return RiskCheckResult::Rejected(
                RiskRejectReason::PositionLimitExceeded {
                    projected,
                    limit: self.limits.max_position,
                },
            );
        }
        if self.orders_in_period >= self.limits.max_orders_per_period {
            return RiskCheckResult::Rejected(
                RiskRejectReason::OrderRateLimitExceeded {
                    count: self.orders_in_period,
                    limit: self.limits.max_orders_per_period,
                },
            );
        }
        RiskCheckResult::Passed
    }

    /// Whether [`Self::check_order`] can run on `order` at
    /// `current_position`: when checks are enabled and the order passes the
    /// size and notional checks, the position after it fits in `i64`.
    pub fn can_check_order(&self, order: &Order, current_position: i64) -> (ok: bool)
        ensures
            ok == risk_check_admissible(self.limit_settings(), *order, current_position),
    {
        if !self.limits.enabled {
            return true;
        }
        if order.quantity < self.limits.min_order_size || order.quantity > self.limits.max_order_size {
            return true;
        }
        let p = order.price as i128;
        let q = order.quantity as i128;
        proof {
            assert(-0x8000_0000_0000_0000_0000_0000_0000_0000 < p * q
                < 0x8000_0000_0000_0000_0000_0000_0000_0000) by (nonlinear_arith)
                requires
                    -0x8000_0000_0000_0000 <= p <= 0x7fff_ffff_ffff_ffff,
                    0 <= q <= 0xffff_ffff_ffff_ffff,
            ;
        }
        let notional = p * q;
        let magnitude = if notional < 0 {
            -notional
        } else {
            notional
        };
        if magnitude > self.limits.max_notional {
            return true;
        }
        let delta = #[verifier::truncate] (order.quantity as i64);
        let projected: i128 = match order.side {
            Side::Bid => current_position as i128 + delta as i128,
            Side::Ask => current_position as i128 - delta as i128,
        };
        i64::MIN as i128 <= projected && projected <= i64::MAX as i128
    }

    /// Count one more order in the current period.
    pub fn record_order(&mut self)
        requires
            old(self).period_count() < u64::MAX,
        ensures
            final(self).limit_settings() == old(self).limit_settings(),
            final(self).period_count() == old(self).period_count() + 1,
    {
        self.orders_in_period = self.orders_in_period + 1;
    }

    /// Start a new period.
    pub fn reset_period(&mut self)
        ensures
            final(self).limit_settings() == old(self).limit_settings(),
            final(self).period_count() == 0,
    {
        self.orders_in_period = 0;
    }

    /// Orders recorded in the current period.
    pub fn orders_in_period(&self) -> (r: u64)
        ensures
            r == self.period_count(),
    {
        self.orders_in_period
    }
}

// ---------------------------------------------------------------------------
// Rejection text
// ---------------------------------------------------------------------------

/// The ASCII digit for `d < 10`.
pub open spec fn digit_char(d: nat) -> char {
    if d == 0 {
        '0'
    } else if d == 1 {
        '1'
    } else if d == 2 {
        '2'
    } else if d == 3 {
        '3'
    } else if d == 4 {
        '4'
    } else if d == 5 {
        '5'
    } else if d == 6 {
        '6'
    } else if d == 7 {
        '7'
    } else if d == 8 {
        '8'
    } else {
        '9'
    }
}

/// Shortest decimal text of `n`.
pub open spec fn decimal_text(n: nat) -> Seq<char>
    decreases n,
{
    if n < 10 {
        seq![digit_char(n)]
    } else {
        decimal_text(n / 10).push(digit_char(n % 10))
    }
}

/// Decimal text of `x`, with a leading `-` when negative.
pub open spec fn signed_text(x: int) -> Seq<char> {
    if x < 0 {
        seq!['-'] + decimal_text((-x) as nat)
    } else {
        decimal_text(x as nat)
    }
}

/// The text a rejection reason is reported as: the variant's name, then its
/// fields in braces as `name: value` separated by `, `, numbers in decimal.
pub open spec fn reason_text(r: RiskRejectReason) -> Seq<char> {
    match r {
        RiskRejectReason::MaxOrderSizeExceeded { requested, limit } => "MaxOrderSizeExceeded { requested: "@
            + signed_text(requested as int) + ", limit: "@ + signed_text(limit as int) + " }"@,
        RiskRejectReason::MaxNotionalExceeded { notional, limit } => "MaxNotionalExceeded { notional: "@
            + signed_text(notional as int) + ", limit: "@ + signed_text(limit as int) + " }"@,
        RiskRejectReason::PositionLimitExceeded { projected, limit } => "PositionLimitExceeded { projected: "@
            + signed_text(projected as int) + ", limit: "@ + signed_text(limit as int) + " }"@,
        RiskRejectReason::OrderRateLimitExceeded { count, limit } => "OrderRateLimitExceeded { count: "@
            + signed_text(count as int) + ", limit: "@ + signed_text(limit as int) + " }"@,
        RiskRejectReason::MinOrderSizeNotMet { requested, minimum } => "MinOrderSizeNotMet { requested: "@
            + signed_text(requested as int) + ", minimum: "@ + signed_text(minimum as int) + " }"@,
    }
}

/// Append the digit `d < 10`.
fn push_digit(s: &mut String, d: u128)
    requires
        d < 10,
    ensures
        final(s)@ == old(s)@.push(digit_char(d as nat)),
{
    if d == 0 {
        s.append("0");
        proof { reveal_strlit("0"); }
    } else if d == 1 {
        s.append("1");
        proof { reveal_strlit("1"); }
    } else if d == 2 {
        s.append("2");
        proof { reveal_strlit("2"); }
    } else if d == 3 {
        s.append("3");
        proof { reveal_strlit("3"); }
    } else if d == 4 {
        s.append("4");
        proof { reveal_strlit("4"); }
    } else if d == 5 {
        s.append("5");
        proof { reveal_strlit("5"); }
    } else if d == 6 {
        s.append("6");
        proof { reveal_strlit("6"); }
    } else if d == 7 {
        s.append("7");
        proof { reveal_strlit("7"); }
    } else if d == 8 {
        s.append("8");
        proof { reveal_strlit("8"); }
    } else {
        s.append("9");
        proof { reveal_strlit("9"); }
    }
    proof {
        assert(final(s)@ =~= old(s)@.push(digit_char(d as nat)));
    }
}

/// Append the decimal text of `n`.
fn push_decimal_text(s: &mut String, n: u128)
    ensures
        final(s)@ == old(s)@ + decimal_text(n as nat),
    decreases n,
{
    if n >= 10 {
        push_decimal_text(s, n / 10);
    }
    push_digit(s, n % 10);
    proof {
        assert(final(s)@ =~= old(s)@ + decimal_text(n as nat));
    }
}

/// Append the decimal text of `x`, with a leading `-` when negative.
fn push_signed_text(s: &mut String, x: i128)
    ensures
        final(s)@ == old(s)@ + signed_text(x as int),
{
    if x < 0 {
        s.append("-");
        proof { reveal_strlit("-"); }
        let magnitude: u128 = if x == i128::MIN {
            0x8000_0000_0000_0000_0000_0000_0000_0000u128
        } else {
            (-x) as u128
        };
        push_decimal_text(s, magnitude);
        proof {
            assert(final(s)@ =~= old(s)@ + signed_text(x as int));
        }
    } else {
        push_decimal_text(s, x as u128);
    }
}

/// The text a rejection reason is reported as (see [`reason_text`]), for
/// example `PositionLimitExceeded { projected: 60, limit: 50 }`.
pub fn reject_text(reason: &RiskRejectReason) -> (s: String)
    ensures
        s@ == reason_text(*reason),
{
    let mut s = String::new();
    match reason {
        RiskRejectReason::MaxOrderSizeExceeded { requested, limit } => {
            s.append("MaxOrderSizeExceeded { requested: ");
            push_signed_text(&mut s, *requested as i128);
            s.append(", limit: ");
            push_signed_text(&mut s, *limit as i128);
        },
        RiskRejectReason::MaxNotionalExceeded { notional, limit } => {
            s.append("MaxNotionalExceeded { notional: ");
            push_signed_text(&mut s, *notional);
            s.append(", limit: ");
            push_signed_text(&mut s, *limit);
        },
        RiskRejectReason::PositionLimitExceeded { projected, limit } => {
            s.append("PositionLimitExceeded { projected: ");
            push_signed_text(&mut s, *projected as i128);
            s.append(", limit: ");
            push_signed_text(&mut s, *limit as i128);
        },
        RiskRejectReason::OrderRateLimitExceeded { count, limit } => {
            s.append("OrderRateLimitExceeded { count: ");
            push_signed_text(&mut s, *count as i128);
            s.append(", limit: ");
            push_signed_text(&mut s, *limit as i128);
        },
        RiskRejectReason::MinOrderSizeNotMet { requested, minimum } => {
            s.append("MinOrderSizeNotMet { requested: ");
            push_signed_text(&mut s, *requested as i128);
            s.append(", minimum: ");
            push_signed_text(&mut s, *minimum as i128);
        },
    }
    s.append(" }");
    proof {
        assert(s@ =~= reason_text(*reason));
    }
    s
}

} // verus!
