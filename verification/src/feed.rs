//! From the messages of a market-data feed to order lifecycle events.
//!
//! A feed reports more than the engine consumes. Only three kinds of message
//! start, shrink or replace an order; executions and deletions that the feed
//! reports are left out, since fills come from the engine's own matching.

use crate::order::{OrderEvent, Side};
use vstd::prelude::*;

verus! {

/// The body of a feed message, as far as it concerns single orders.
#[derive(Debug, Clone)]
pub enum FeedBody {
    /// A new order was added to the venue's book.
    AddOrder { reference: u64, side: Side, shares: u32, stock: String, price: u32 },
    /// Part of an order was cancelled.
    OrderCancelled { reference: u64, cancelled: u32 },
    /// An order was replaced by a new one on the same side.
    ReplaceOrder { old_reference: u64, new_reference: u64, shares: u32, price: u32 },
    /// An order was executed in part or in whole.
    OrderExecuted { reference: u64, executed: u32 },
    /// An order was deleted.
    DeleteOrder { reference: u64 },
    /// Any message that concerns no single order.
    Other,
}

/// The lifecycle event that a feed message stands for, if it stands for one.
pub open spec fn event_of(timestamp: u64, body: FeedBody) -> Option<OrderEvent> {
    match body {
        FeedBody::AddOrder { reference, side, shares, stock, price } => Some(
            OrderEvent::New { timestamp, id: reference, symbol: stock, side, price, size: shares },
        ),
        FeedBody::OrderCancelled { reference, cancelled } => Some(
            OrderEvent::Cancel { timestamp, id: reference, size: cancelled },
        ),
        FeedBody::ReplaceOrder { old_reference, new_reference, shares, price } => Some(
            OrderEvent::Replace {
                timestamp,
                old_id: old_reference,
                new_id: new_reference,
                new_size: shares,
                new_price: price,
            },
        ),
        FeedBody::OrderExecuted { .. } => None,
        FeedBody::DeleteOrder { .. } => None,
        FeedBody::Other => None,
    }
}

/// Turns a feed message received at `timestamp` into the lifecycle event it
/// stands for. Messages that stand for none give `None`.
pub fn lifecycle_event(timestamp: u64, body: FeedBody) -> (event: Option<OrderEvent>)
    ensures
        event == event_of(timestamp, body),
{
    match body {
        FeedBody::AddOrder { reference, side, shares, stock, price } => Some(
            OrderEvent::New { timestamp, id: reference, symbol: stock, side, price, size: shares },
        ),
        FeedBody::OrderCancelled { reference, cancelled } => Some(
            OrderEvent::Cancel { timestamp, id: reference, size: cancelled },
        ),
        FeedBody::ReplaceOrder { old_reference, new_reference, shares, price } => Some(
            OrderEvent::Replace {
                timestamp,
                old_id: old_reference,
                new_id: new_reference,
                new_size: shares,
                new_price: price,
            },
        ),
        FeedBody::OrderExecuted { .. } => None,
        FeedBody::DeleteOrder { .. } => None,
        FeedBody::Other => None,
    }
}

} // verus!
