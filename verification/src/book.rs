//! The limit order book of one instrument.
//!
//! A book holds the resting buy orders (bids), the resting sell orders
//! (asks), and an index from the id of a resting order to the side and price
//! at which it rests.

use crate::ladder::{
    ladder_wf, place, queue_at, sweep, swept_ids, traded, withdraw, Ladder, LevelView,
};
use crate::order::{Order, Side};
use crate::queue::holds;
use std::collections::HashMap;
use vstd::prelude::*;

verus! {

/// The mathematical state of a book. Each ladder runs from its worst price
/// level to its best.
pub ghost struct BookView {
    pub bids: Seq<LevelView>,
    pub asks: Seq<LevelView>,
    pub index: Map<u64, (Side, u32)>,
}

impl BookView {
    /// The book that holds no order.
    pub open spec fn empty() -> BookView {
        BookView { bids: Seq::empty(), asks: Seq::empty(), index: Map::empty() }
    }

    /// The ladder of one side.
    pub open spec fn side(self, side: Side) -> Seq<LevelView> {
        match side {
            Side::Buy => self.bids,
            Side::Sell => self.asks,
        }
    }

    /// This book with the ladder of one side replaced.
    pub open spec fn with_side(self, side: Side, levels: Seq<LevelView>) -> BookView {
        match side {
            Side::Buy => BookView { bids: levels, ..self },
            Side::Sell => BookView { asks: levels, ..self },
        }
    }

    /// Both ladders are well formed: sorted by priority, without empty
    /// levels, each order open and resting at its own side and price.
    pub open spec fn wf(self) -> bool {
        &&& ladder_wf(Side::Buy, self.bids)
        &&& ladder_wf(Side::Sell, self.asks)
    }

    /// The quantity of `order` that trades on arrival.
    pub open spec fn matched(self, order: Order) -> nat {
        traded(
            order.side.spec_opposite(),
            self.side(order.side.spec_opposite()),
            order.price,
            order.size as nat,
        )
    }

    /// The book after `order` has arrived. The order trades against the
    /// other side, best price first and oldest order first; orders that are
    /// used up leave the book and the index. What is left of the order comes
    /// to rest on its own side, behind the orders at its price, and is
    /// entered in the index.
    pub open spec fn match_limit(self, order: Order) -> BookView {
        let other: Side = order.side.spec_opposite();
        let left: int = order.size - self.matched(order);
        let swept: BookView = BookView {
            index: self.index.remove_keys(
                swept_ids(other, self.side(other), order.price, order.size as nat),
            ),
            ..self.with_side(other, sweep(other, self.side(other), order.price, order.size as nat))
        };
        if left > 0 {
            BookView {
                index: swept.index.insert(order.id, (order.side, order.price)),
                ..swept.with_side(
                    order.side,
                    place(order.side, swept.side(order.side), order.with_size(left as u32)),
                )
            }
        } else {
            swept
        }
    }

    /// Whether cancelling `size` units from order `id` takes the order out
    /// of the book: the id is indexed, and no order with that id is left at
    /// the indexed side and price.
    pub open spec fn cancel_removes(self, id: u64, size: u32) -> bool {
        &&& self.index.contains_key(id)
        &&& !holds(
            queue_at(
                withdraw(self.side(self.index[id].0), self.index[id].1, id, size),
                self.index[id].1,
            ),
            id,
        )
    }

    /// The book after `size` units are cancelled from order `id`. An id that
    /// is not indexed leaves the book as it is. Otherwise the order at the
    /// indexed side and price shrinks by `size`, or leaves the book and the
    /// index when `size` covers all that is open.
    pub open spec fn cancel(self, id: u64, size: u32) -> BookView {
        if self.index.contains_key(id) {
            let side: Side = self.index[id].0;
            let price: u32 = self.index[id].1;
            let after: BookView = self.with_side(side, withdraw(self.side(side), price, id, size));
            if self.cancel_removes(id, size) {
                BookView { index: self.index.remove(id), ..after }
            } else {
                after
            }
        } else {
            self
        }
    }
}

/// The limit order book of one instrument.
pub struct OrderBook {
    bids: Ladder,
    asks: Ladder,
    index: HashMap<u64, (Side, u32)>,
}

impl View for OrderBook {
    type V = BookView;

    closed spec fn view(&self) -> BookView {
        BookView { bids: self.bids@, asks: self.asks@, index: self.index@ }
    }
}

impl OrderBook {
    /// The book's invariant. It implies `self@.wf()`.
    pub closed spec fn wf(&self) -> bool {
        &&& self.bids.wf()
        &&& self.bids.side() == Side::Buy
        &&& self.asks.wf()
        &&& self.asks.side() == Side::Sell
    }

    /// The view of a well-formed book is well formed.
    pub proof fn lemma_wf_view(&self)
        requires
            self.wf(),
        ensures
            self@.wf(),
    {
    }

    /// A book without orders.
    pub fn new() -> (book: OrderBook)
        ensures
            book.wf(),
            book@ == BookView::empty(),
    {
        OrderBook {
            bids: Ladder::new(Side::Buy),
            asks: Ladder::new(Side::Sell),
            index: HashMap::new(),
        }
    }

    /// Takes in a limit order: trades it against the resting orders of the
    /// other side in price-time priority, and rests what is left.
    pub fn match_limit(&mut self, incoming: Order)
        requires
            old(self).wf(),
        ensures
            final(self).wf(),
            final(self)@.wf(),
            final(self)@ == old(self)@.match_limit(incoming),
    {
        let left: u32 = match incoming.side {
            Side::Buy => self.asks.sweep(&mut self.index, incoming.price, incoming.size),
            Side::Sell => self.bids.sweep(&mut self.index, incoming.price, incoming.size),
        };
        if left > 0 {
            let rest: Order = Order {
                id: incoming.id,
                side: incoming.side,
                price: incoming.price,
                size: left,
                timestamp: incoming.timestamp,
            };
            match incoming.side {
                Side::Buy => self.bids.place(rest),
                Side::Sell => self.asks.place(rest),
            }
            self.index.insert(incoming.id, (incoming.side, incoming.price));
        }
    }

    /// Cancels `size` units from order `id`. Returns `true` if the order
    /// has left the book, `false` if it still rests or was not in the book.
    pub fn handle_cancel(&mut self, id: u64, size: u32) -> (removed: bool)
        requires
            old(self).wf(),
        ensures
            final(self).wf(),
            final(self)@.wf(),
            final(self)@ == old(self)@.cancel(id, size),
            removed == old(self)@.cancel_removes(id, size),
    {
        let found: Option<(Side, u32)> = match self.index.get(&id) {
            Some(at) => Some(*at),
            None => None,
        };
        match found {
            None => false,
            Some((side, price)) => {
                let kept: bool = match side {
                    Side::Buy => self.bids.withdraw(price, id, size),
                    Side::Sell => self.asks.withdraw(price, id, size),
                };
                if !kept {
                    self.index.remove(&id);
                }
                !kept
            },
        }
    }

    /// The highest price at which a buy order rests.
    pub fn best_bid(&self) -> (best: Option<u32>)
        ensures
            best == (if self@.bids.len() == 0 {
                None
            } else {
                Some(self@.bids.last().price)
            }),
    {
        self.bids.best_price()
    }

    /// The lowest price at which a sell order rests.
    pub fn best_ask(&self) -> (best: Option<u32>)
        ensures
            best == (if self@.asks.len() == 0 {
                None
            } else {
                Some(self@.asks.last().price)
            }),
    {
        self.asks.best_price()
    }

    /// The number of price levels on `side`.
    pub fn level_count(&self, side: Side) -> (n: usize)
        ensures
            n == self@.side(side).len(),
    {
        match side {
            Side::Buy => self.bids.level_count(),
            Side::Sell => self.asks.level_count(),
        }
    }

    /// The orders resting on `side` at `price`, oldest first.
    pub fn orders_at(&self, side: Side, price: u32) -> (orders: Vec<Order>)
        requires
            self.wf(),
        ensures
            orders@ == queue_at(self@.side(side), price),
    {
        match side {
            Side::Buy => self.bids.orders_at(price),
            Side::Sell => self.asks.orders_at(price),
        }
    }

    /// The side and price at which order `id` is indexed, if it is.
    pub fn locate(&self, id: u64) -> (at: Option<(Side, u32)>)
        ensures
            at == (if self@.index.contains_key(id) {
                Some(self@.index[id])
            } else {
                None
            }),
    {
        match self.index.get(&id) {
            Some(at) => Some(*at),
            None => None,
        }
    }
}

} // verus!
