//! A price-time priority matching engine for limit order books.
//!
//! Order lifecycle events (new, cancel, replace) are applied one at a time to
//! per-symbol order books. Every executable function carries a contract over
//! the mathematical view of the state it changes, and the contracts are
//! machine-checked.
//!
//! - [`order`]: orders and lifecycle events.
//! - [`queue`]: the FIFO queue at one price.
//! - [`ladder`]: the price levels of one side of a book.
//! - [`book`]: the order book of one instrument.
//! - [`engine`]: the books of all symbols and the routing of events.
//! - [`feed`]: from feed messages to lifecycle events.
//! - [`priority`], [`conservation`], [`consistency`], [`invariants`]: what
//!   is proved of books and engines beyond the contracts of single calls.

pub mod order;
pub mod queue;
pub mod ladder;
pub mod book;
pub mod engine;
pub mod priority;
pub mod conservation;
pub mod consistency;
pub mod invariants;
pub mod feed;

pub use book::OrderBook;
pub use engine::{EngineStats, MatchingEngine};
pub use order::{Order, OrderEvent, Side};
