# alice_ledger

Order book, matching engine and position management for trading systems,
verified with Verus.

- `src/` is the library. Every function carries a `requires`/`ensures`
  contract over a mathematical model (`book_model.rs` for the order book),
  and the properties that span several operations are stated and proved as
  `law_*` proof functions (`book_laws.rs`, `cancel_laws.rs`, `index_laws.rs`,
  `fix_laws.rs`, and next to the code in `position.rs`, `risk.rs`,
  `bulk.rs`, `ffi.rs`, `signed_order.rs`). An `OrderBook` is well formed,
  with no stale identifier in its index,
  by its type invariant.
- `tests/` runs the library on concrete values.
- `app/` holds what is not verified: the `al_ldg_*` C ABI and the signing
  and hashing layer built on `alice_blockchain`.

Prices are `i64` ticks and quantities `u64` lots; there is no floating
point anywhere.
