//! Order book, matching engine and position management for trading systems.
//!
//! Prices are `i64` ticks (the smallest price increment of an instrument),
//! quantities are `u64` lots; all arithmetic is integer and deterministic.
//!
//! - [`order`]: orders and their attributes
//! - [`book`]: price-time priority limit order book and matching engine,
//!   [`book_model`]: its mathematical model, [`book_laws`],
//!   [`cancel_laws`] and [`index_laws`]: what matching and cancelling
//!   guarantee
//! - [`position`]: per-instrument position and P&L accounting
//! - [`risk`], [`bulk`], [`post_only`]: pre-trade checks and mass cancellation
//! - [`fix`]: a FIX 4.4 wire-format subset, [`fix_laws`]: what parsing makes
//!   of serialised messages
//! - [`signed_order`]: canonical order bytes and a hash-chained audit log
//! - [`ffi`]: plain-data mirrors of the core types for C consumers

pub mod book;
pub mod book_laws;
pub mod book_model;
pub mod bulk;
pub mod cancel_laws;
pub mod ffi;
pub mod fix;
pub mod fix_laws;
pub mod index_laws;
pub mod order;
pub mod position;
pub mod post_only;
pub mod prelude;
pub mod risk;
pub mod signed_order;

// Re-export the most commonly used types at the crate root.
pub use book::{Fill, OrderBook, PriceLevel};
pub use order::{Order, OrderId, OrderType, Side, TimeInForce};
pub use position::{Position, PositionTracker};
