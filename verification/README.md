# broker

A limit order book with a price-time priority matching engine, verified with
Verus, and the terminal program that simulates a home broker around it.

- `src/` is the verified library: orders and their ranking (`order.rs`,
  `order_cmp.rs`), trades, the order book and its matching engine
  (`orderbook.rs`), the bookkeeping of the bounded channel (`mpsc.rs`) and of
  the writer-preferring reader-writer lock (`rwlock.rs`), random orders
  (`random.rs`, over `rand`) and the system clock (`clock.rs`).
- `app/` is the program: the blocking channel ends and the blocking lock
  (mutexes and condition variables around the library's bookkeeping), the
  thread pool, the order book service with its matching-engine thread, and
  the terminal interface (`crossterm`, `ratatui`).
- `tests/` exercises the library.
