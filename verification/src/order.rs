//! Orders and the lifecycle events that create, shrink and replace them.

use vstd::prelude::*;

verus! {

/// The side of the market an order belongs to.
#[derive(Debug, Clone, Copy, PartialEq, Eq, Hash, Structural)]
pub enum Side {
    Buy,
    Sell,
}

impl Side {
    /// The side an order of this side trades against.
    pub open spec fn spec_opposite(self) -> Side {
        match self {
            Side::Buy => Side::Sell,
            Side::Sell => Side::Buy,
        }
    }

    /// The side an order of this side trades against.
    #[verifier::when_used_as_spec(spec_opposite)]
    pub fn opposite(self) -> (other: Side)
        ensures
            other == self.spec_opposite(),
    {
        match self {
            Side::Buy => Side::Sell,
            Side::Sell => Side::Buy,
        }
    }
}

/// A limit order, incoming or resting.
///
/// `size` is the quantity still open. `timestamp` is carried along for
/// diagnostics only: priority within a price is decided by queue position.
#[derive(Debug, Clone, Copy, PartialEq, Eq, Structural)]
pub struct Order {
    pub id: u64,
    pub side: Side,
    pub price: u32,
    pub size: u32,
    pub timestamp: u64,
}

impl Order {
    /// This order with its open quantity replaced by `size`.
    pub open spec fn with_size(self, size: u32) -> Order {
        Order { size, ..self }
    }
}

/// One event in the life of an order.
#[derive(Debug, Clone)]
pub enum OrderEvent {
    /// A new limit order for `symbol`.
    New { timestamp: u64, id: u64, symbol: String, side: Side, price: u32, size: u32 },
    /// Take `size` units off the order `id`; the order leaves the book when
    /// `size` covers all that is open.
    Cancel { timestamp: u64, id: u64, size: u32 },
    /// Withdraw `old_id` and enter `new_id` on the same side and symbol.
    Replace { timestamp: u64, old_id: u64, new_id: u64, new_size: u32, new_price: u32 },
}

} // verus!
