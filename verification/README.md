# services

An order feed simulation and a price-time priority matching engine for limit
orders, written in Verus: the library's logic is proved against its contracts.

Prices and cash are held as integers in hundredths of the quote token,
quantities and positions in tenths of the base token; trade values are
rounded half up to a hundredth. The services exchange decimal numbers in JSON
and convert at the boundary.

Layout:

- `src/feed.rs`, `src/feed/` — feed messages, the listed trading pairs, side
  parsing, and the feed state: id assignment, publishing, polling by id, the
  random order generator (`random.rs` draws from `rand`).
- `src/engine/book.rs` — the order book of one symbol: matching in price-time
  priority at the resting order's price, cancelling, price levels, snapshots,
  and the laws of matching.
- `src/engine/db.rs` — the ledger: trades, cash balances, positions and book
  snapshots, with all-or-nothing settlement that keeps it zero-sum. It is held
  in memory; there is no file-backed store, so nothing persists across restarts.
- `src/engine/matcher.rs` — the engine: one book per symbol, message
  processing, statistics, queries.
- `src/engine/consumer.rs` — the feed consumer's bookkeeping: poll URLs, the
  last id seen, failure counts, hand-over of polled messages to the engine.
- `src/text.rs` — string comparison by characters.
- `app/` — the command line, the HTTP services (axum, reqwest, tokio), logging,
  and the JSON forms of the library's values.
