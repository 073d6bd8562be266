//! The main types and functions in one import: `use alice_ledger::prelude::*;`.

pub use crate::book::{Fill, OrderBook, PriceLevel};
pub use crate::fix::{parse as parse_fix, serialize as serialize_fix, FixError, FixMessage, SOH};
pub use crate::order::{Order, OrderId, OrderType, Side, TimeInForce};
pub use crate::position::{Position, PositionTracker};
pub use crate::signed_order::{
    AuditEvent, AuditEventKind, OrderAuditLog, OrderPayload, OrderSide as SignedOrderSide,
};
