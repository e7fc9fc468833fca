//! A limit order book with a price-time priority matching engine, together
//! with the bookkeeping of the bounded channel and of the reader-writer lock
//! that the concurrent service around it is built from.

pub mod clock;
pub mod controls;
pub mod errors;
pub mod mpsc;
pub mod order;
mod order_cmp;
pub mod orderbook;
pub mod random;
pub mod rwlock;
pub mod trade;

pub use errors::OrderError;
pub use order::{Order, Side};
pub use trade::Trade;
pub use orderbook::OrderBook;
pub use random::generate_random_order;
