//! The matching engine: one order book per symbol, and the routing of
//! lifecycle events to the book they concern.
//!
//! A new order names its symbol. Cancels and replaces name only an order id,
//! so the engine keeps a route from every id it has seen enter to the symbol
//! and side of that order.

use crate::book::{BookView, OrderBook};
use crate::order::{Order, OrderEvent, Side};
use std::collections::HashMap;
use vstd::prelude::*;

verus! {

/// The mathematical state of an engine.
pub ghost struct EngineView {
    /// The book of each symbol seen so far.
    pub books: Map<Seq<char>, BookView>,
    /// For each routed order id, its symbol and side.
    pub routes: Map<u64, (Seq<char>, Side)>,
    pub total_new: nat,
    pub total_cancel: nat,
    pub total_replace: nat,
}

impl EngineView {
    /// The engine that has seen no event.
    pub open spec fn empty() -> EngineView {
        EngineView {
            books: Map::empty(),
            routes: Map::empty(),
            total_new: 0,
            total_cancel: 0,
            total_replace: 0,
        }
    }

    /// The book of `symbol`; the empty book for a symbol not seen yet.
    pub open spec fn book(self, symbol: Seq<char>) -> BookView {
        if self.books.contains_key(symbol) {
            self.books[symbol]
        } else {
            BookView::empty()
        }
    }

    /// Every book is well formed, and every route leads to a book.
    pub open spec fn wf(self) -> bool {
        &&& forall|s: Seq<char>| self.books.contains_key(s) ==> (#[trigger] self.books[s]).wf()
        &&& forall|id: u64|
            self.routes.contains_key(id) ==> self.books.contains_key(
                (#[trigger] self.routes[id]).0,
            )
    }

    /// This engine with the counter for the kind of `ev` advanced by one.
    pub open spec fn counted(self, ev: OrderEvent) -> EngineView {
        match ev {
            OrderEvent::New { .. } => EngineView { total_new: self.total_new + 1, ..self },
            OrderEvent::Cancel { .. } => EngineView {
                total_cancel: self.total_cancel + 1,
                ..self
            },
            OrderEvent::Replace { .. } => EngineView {
                total_replace: self.total_replace + 1,
                ..self
            },
        }
    }

    /// The engine after the event `ev`.
    ///
    /// Every event is counted. A new order is matched in the book of its
    /// symbol and its id is routed to that symbol and side, whether or not
    /// anything of it came to rest. A cancel for a routed id is applied to
    /// the routed book, and the route goes when the order has left the book.
    /// A replace for a routed id withdraws the old order entirely, whatever
    /// its open quantity, and enters the new one on the same side of the
    /// same book as a new arrival. Cancels and replaces for an id without a
    /// route change nothing but the counter.
    pub open spec fn handle(self, ev: OrderEvent) -> EngineView {
        let counted: EngineView = self.counted(ev);
        match ev {
            OrderEvent::New { timestamp, id, symbol, side, price, size } => {
                let order: Order = Order { id, side, price, size, timestamp };
                EngineView {
                    books: self.books.insert(symbol@, self.book(symbol@).match_limit(order)),
                    routes: self.routes.insert(id, (symbol@, side)),
                    ..counted
                }
            },
            OrderEvent::Cancel { timestamp, id, size } => {
                if self.routes.contains_key(id) {
                    let symbol: Seq<char> = self.routes[id].0;
                    let book: BookView = self.book(symbol);
                    EngineView {
                        books: self.books.insert(symbol, book.cancel(id, size)),
                        routes: if book.cancel_removes(id, size) {
                            self.routes.remove(id)
                        } else {
                            self.routes
                        },
                        ..counted
                    }
                } else {
                    counted
                }
            },
            OrderEvent::Replace { timestamp, old_id, new_id, new_size, new_price } => {
                if self.routes.contains_key(old_id) {
                    let symbol: Seq<char> = self.routes[old_id].0;
                    let side: Side = self.routes[old_id].1;
                    let order: Order = Order {
                        id: new_id,
                        side,
                        price: new_price,
                        size: new_size,
                        timestamp,
                    };
                    EngineView {
                        books: self.books.insert(
                            symbol,
                            self.book(symbol).cancel(old_id, u32::MAX).match_limit(order),
                        ),
                        routes: self.routes.remove(old_id).insert(new_id, (symbol, side)),
                        ..counted
                    }
                } else {
                    counted
                }
            },
        }
    }
}

/// How many events of each kind an engine has handled.
#[derive(Debug, Clone, Copy, PartialEq, Eq, Structural)]
pub struct EngineStats {
    pub total_new: u64,
    pub total_cancel: u64,
    pub total_replace: u64,
}

/// The book of one symbol.
struct SymbolBook {
    symbol: String,
    book: OrderBook,
}

/// Whether some entry is for `symbol`.
spec fn has_symbol(books: Seq<SymbolBook>, symbol: Seq<char>) -> bool {
    exists|i: int| 0 <= i < books.len() && (#[trigger] books[i]).symbol@ == symbol
}

/// The position of the entry for `symbol`, where there is one.
spec fn slot_of(books: Seq<SymbolBook>, symbol: Seq<char>) -> int {
    choose|i: int| 0 <= i < books.len() && (#[trigger] books[i]).symbol@ == symbol
}

/// No symbol has two entries.
spec fn distinct(books: Seq<SymbolBook>) -> bool {
    forall|i: int, j: int|
        0 <= i < j < books.len() ==> (#[trigger] books[i]).symbol@ != (#[trigger] books[j]).symbol@
}

/// The books by symbol.
spec fn books_map(books: Seq<SymbolBook>) -> Map<Seq<char>, BookView> {
    Map::new(
        |s: Seq<char>| has_symbol(books, s),
        |s: Seq<char>| books[slot_of(books, s)].book@,
    )
}

/// The routes by order id, with the symbol in place of its position.
spec fn routes_map(books: Seq<SymbolBook>, ids: Map<u64, (usize, Side)>) -> Map<
    u64,
    (Seq<char>, Side),
> {
    Map::new(
        |id: u64| ids.contains_key(id),
        |id: u64| (books[ids[id].0 as int].symbol@, ids[id].1),
    )
}

/// Among distinct entries a symbol is found at its own position.
proof fn lemma_slot(books: Seq<SymbolBook>, i: int)
    requires
        distinct(books),
        0 <= i < books.len(),
    ensures
        has_symbol(books, books[i].symbol@),
        slot_of(books, books[i].symbol@) == i,
        books_map(books).contains_key(books[i].symbol@),
        books_map(books)[books[i].symbol@] == books[i].book@,
{
    let j: int = slot_of(books, books[i].symbol@);
    if j < i {
        assert(books[j].symbol@ != books[i].symbol@);
    } else if i < j {
        assert(books[i].symbol@ != books[j].symbol@);
    }
}

/// Changing the book of one entry changes the map at that entry's symbol.
proof fn lemma_books_update(before: Seq<SymbolBook>, after: Seq<SymbolBook>, i: int)
    requires
        distinct(before),
        0 <= i < before.len(),
        after.len() == before.len(),
        forall|j: int| 0 <= j < before.len() ==> (#[trigger] after[j]).symbol@ == before[j].symbol@,
        forall|j: int|
            0 <= j < before.len() && j != i ==> (#[trigger] after[j]).book@ == before[j].book@,
    ensures
        distinct(after),
        books_map(after) == books_map(before).insert(before[i].symbol@, after[i].book@),
{
    assert(distinct(after)) by {
        assert forall|a: int, b: int| 0 <= a < b < after.len() implies (#[trigger] after[a]).symbol@
            != (#[trigger] after[b]).symbol@ by {
            assert(before[a].symbol@ != before[b].symbol@);
        }
    }
    let target: Map<Seq<char>, BookView> = books_map(before).insert(
        before[i].symbol@,
        after[i].book@,
    );
    assert forall|s: Seq<char>| books_map(after).contains_key(s) <==> target.contains_key(s) by {
        if has_symbol(after, s) {
            let j: int = slot_of(after, s);
            assert(before[j].symbol@ == s);
        }
        if has_symbol(before, s) {
            let j: int = slot_of(before, s);
            assert(after[j].symbol@ == s);
        }
        if s == before[i].symbol@ {
            assert(after[i].symbol@ == s);
        }
    }
    assert forall|s: Seq<char>| books_map(after).contains_key(s) implies books_map(after)[s]
        == target[s] by {
        let j: int = slot_of(after, s);
        lemma_slot(after, j);
        assert(before[j].symbol@ == s);
        lemma_slot(before, j);
        if j != i {
            assert(before[i].symbol@ != before[j].symbol@) by {
                if i < j {
                    assert(before[i].symbol@ != before[j].symbol@);
                } else {
                    assert(before[j].symbol@ != before[i].symbol@);
                }
            }
        }
    }
    assert(books_map(after) =~= target);
}

/// A new entry for a symbol without one adds that symbol to the map.
proof fn lemma_books_push(before: Seq<SymbolBook>, entry: SymbolBook)
    requires
        distinct(before),
        !has_symbol(before, entry.symbol@),
    ensures
        distinct(before.push(entry)),
        books_map(before.push(entry)) == books_map(before).insert(entry.symbol@, entry.book@),
{
    let after: Seq<SymbolBook> = before.push(entry);
    assert(distinct(after)) by {
        assert forall|a: int, b: int| 0 <= a < b < after.len() implies (#[trigger] after[a]).symbol@
            != (#[trigger] after[b]).symbol@ by {
            if b < before.len() {
                assert(before[a].symbol@ != before[b].symbol@);
            } else {
                assert(before[a].symbol@ != entry.symbol@);
            }
        }
    }
    let target: Map<Seq<char>, BookView> = books_map(before).insert(entry.symbol@, entry.book@);
    assert forall|s: Seq<char>| books_map(after).contains_key(s) <==> target.contains_key(s) by {
        if has_symbol(after, s) {
            let j: int = slot_of(after, s);
            if j < before.len() {
                assert(before[j].symbol@ == s);
            }
        }
        if has_symbol(before, s) {
            let j: int = slot_of(before, s);
            assert(after[j].symbol@ == s);
        }
        if s == entry.symbol@ {
            assert(after[before.len() as int].symbol@ == s);
        }
    }
    assert forall|s: Seq<char>| books_map(after).contains_key(s) implies books_map(after)[s]
        == target[s] by {
        let j: int = slot_of(after, s);
        lemma_slot(after, j);
        if j < before.len() {
            assert(before[j].symbol@ == s);
            lemma_slot(before, j);
        }
    }
    assert(books_map(after) =~= target);
}

/// A matching engine for any number of symbols.
pub struct MatchingEngine {
    books: Vec<SymbolBook>,
    id_map: HashMap<u64, (usize, Side)>,
    stats: EngineStats,
}

impl View for MatchingEngine {
    type V = EngineView;

    closed spec fn view(&self) -> EngineView {
        EngineView {
            books: books_map(self.books@),
            routes: routes_map(self.books@, self.id_map@),
            total_new: self.stats.total_new as nat,
            total_cancel: self.stats.total_cancel as nat,
            total_replace: self.stats.total_replace as nat,
        }
    }
}

impl MatchingEngine {
    /// The engine's invariant. It implies `self@.wf()`.
    pub closed spec fn wf(&self) -> bool {
        &&& distinct(self.books@)
        &&& forall|i: int| 0 <= i < self.books@.len() ==> (#[trigger] self.books@[i]).book.wf()
        &&& forall|id: u64|
            self.id_map@.contains_key(id) ==> (#[trigger] self.id_map@[id]).0 < self.books@.len()
    }

    /// Whether the counter for the kind of `ev` can still advance.
    pub open spec fn accepts(&self, ev: OrderEvent) -> bool {
        match ev {
            OrderEvent::New { .. } => self@.total_new < u64::MAX,
            OrderEvent::Cancel { .. } => self@.total_cancel < u64::MAX,
            OrderEvent::Replace { .. } => self@.total_replace < u64::MAX,
        }
    }

    /// The view of a well-formed engine is well formed.
    pub proof fn lemma_wf_view(&self)
        requires
            self.wf(),
        ensures
            self@.wf(),
    {
        assert forall|s: Seq<char>| self@.books.contains_key(s) implies (
        #[trigger] self@.books[s]).wf() by {
            let i: int = slot_of(self.books@, s);
            self.books@[i].book.lemma_wf_view();
        }
        assert forall|id: u64| self@.routes.contains_key(id) implies self@.books.contains_key(
            (#[trigger] self@.routes[id]).0,
        ) by {
            let i: int = self.id_map@[id].0 as int;
            lemma_slot(self.books@, i);
        }
    }

    /// An engine that has seen no event.
    pub fn new() -> (engine: MatchingEngine)
        ensures
            engine.wf(),
            engine@ == EngineView::empty(),
    {
        let engine: MatchingEngine = MatchingEngine {
            books: Vec::new(),
            id_map: HashMap::new(),
            stats: EngineStats { total_new: 0, total_cancel: 0, total_replace: 0 },
        };
        proof {
            assert(engine@.books =~= Map::<Seq<char>, BookView>::empty());
            assert(engine@.routes =~= Map::<u64, (Seq<char>, Side)>::empty());
        }
        engine
    }

    /// The position of the book of `symbol`, if the engine has one.
    fn find(&self, symbol: &String) -> (slot: Option<usize>)
        ensures
            match slot {
                Some(i) => i < self.books@.len() && self.books@[i as int].symbol@ == symbol@,
                None => !has_symbol(self.books@, symbol@),
            },
    {
        let n: usize = self.books.len();
        let mut i: usize = 0;
        while i < n
            invariant
                i <= n,
                n == self.books@.len(),
                forall|j: int| 0 <= j < i ==> (#[trigger] self.books@[j]).symbol@ != symbol@,
            decreases n - i,
        {
            if self.books[i].symbol == *symbol {
                return Some(i);
            }
            i = i + 1;
        }
        None
    }

    /// Applies one lifecycle event.
    pub fn handle(&mut self, ev: OrderEvent)
        requires
            old(self).wf(),
            old(self).accepts(ev),
        ensures
            final(self).wf(),
            final(self)@.wf(),
            final(self)@ == old(self)@.handle(ev),
    {
        proof {
            self.lemma_wf_view();
        }
        match ev {
            OrderEvent::New { timestamp, id, symbol, side, price, size } => {
                self.stats.total_new = self.stats.total_new + 1;
                let order: Order = Order { id, side, price, size, timestamp };
                self.enter(symbol, order);
            },
            OrderEvent::Cancel { timestamp: _, id, size } => {
                self.stats.total_cancel = self.stats.total_cancel + 1;
                self.cancel(id, size);
            },
            OrderEvent::Replace { timestamp, old_id, new_id, new_size, new_price } => {
                self.stats.total_replace = self.stats.total_replace + 1;
                self.replace(timestamp, old_id, new_id, new_size, new_price);
            },
        }
        proof {
            self.lemma_wf_view();
        }
    }

    /// Matches a new order in the book of `symbol` and routes its id.
    fn enter(&mut self, symbol: String, order: Order)
        requires
            old(self).wf(),
        ensures
            final(self).wf(),
            final(self).stats == old(self).stats,
            final(self)@.books == old(self)@.books.insert(
                symbol@,
                old(self)@.book(symbol@).match_limit(order),
            ),
            final(self)@.routes == old(self)@.routes.insert(order.id, (symbol@, order.side)),
    {
        let ghost books0: Seq<SymbolBook> = self.books@;
        let ghost ids0: Map<u64, (usize, Side)> = self.id_map@;
        let ghost name: Seq<char> = symbol@;
        let slot: usize = match self.find(&symbol) {
            Some(i) => {
                proof {
                    lemma_slot(books0, i as int);
                }
                i
            },
            None => {
                let entry: SymbolBook = SymbolBook { symbol, book: OrderBook::new() };
                proof {
                    lemma_books_push(books0, entry);
                }
                self.books.push(entry);
                self.books.len() - 1
            },
        };
        let ghost books1: Seq<SymbolBook> = self.books@;
        proof {
            lemma_slot(books1, slot as int);
            assert(books1[slot as int].book@ == old(self)@.book(name));
        }
        self.books[slot].book.match_limit(order);
        self.id_map.insert(order.id, (slot, order.side));
        proof {
            let books2: Seq<SymbolBook> = self.books@;
            lemma_books_update(books1, books2, slot as int);
            assert(books_map(books2) =~= books_map(books0).insert(
                name,
                old(self)@.book(name).match_limit(order),
            ));
            assert(routes_map(books2, self.id_map@) =~= routes_map(books0, ids0).insert(
                order.id,
                (name, order.side),
            ));
        }
    }

    /// Applies a cancel to the book that the id is routed to.
    fn cancel(&mut self, id: u64, size: u32)
        requires
            old(self).wf(),
        ensures
            final(self).wf(),
            final(self).stats == old(self).stats,
            !old(self)@.routes.contains_key(id) ==> final(self)@.books == old(self)@.books
                && final(self)@.routes == old(self)@.routes,
            old(self)@.routes.contains_key(id) ==> {
                let symbol: Seq<char> = old(self)@.routes[id].0;
                let book: BookView = old(self)@.book(symbol);
                &&& final(self)@.books == old(self)@.books.insert(symbol, book.cancel(id, size))
                &&& final(self)@.routes == (if book.cancel_removes(id, size) {
                    old(self)@.routes.remove(id)
                } else {
                    old(self)@.routes
                })
            },
    {
        let ghost books0: Seq<SymbolBook> = self.books@;
        let ghost ids0: Map<u64, (usize, Side)> = self.id_map@;
        let found: Option<(usize, Side)> = match self.id_map.get(&id) {
            Some(at) => Some(*at),
            None => None,
        };
        match found {
            None => {},
            Some((slot, _side)) => {
                proof {
                    lemma_slot(books0, slot as int);
                }
                let removed: bool = self.books[slot].book.handle_cancel(id, size);
                if removed {
                    self.id_map.remove(&id);
                }
                proof {
                    let books2: Seq<SymbolBook> = self.books@;
                    lemma_books_update(books0, books2, slot as int);
                    assert(routes_map(books2, self.id_map@) =~= (if removed {
                        routes_map(books0, ids0).remove(id)
                    } else {
                        routes_map(books0, ids0)
                    }));
                }
            },
        }
    }

    /// Withdraws the old order and enters the new one in its place.
    fn replace(&mut self, timestamp: u64, old_id: u64, new_id: u64, new_size: u32, new_price: u32)
        requires
            old(self).wf(),
        ensures
            final(self).wf(),
            final(self).stats == old(self).stats,
            !old(self)@.routes.contains_key(old_id) ==> final(self)@.books == old(self)@.books
                && final(self)@.routes == old(self)@.routes,
            old(self)@.routes.contains_key(old_id) ==> {
                let symbol: Seq<char> = old(self)@.routes[old_id].0;
                let side: Side = old(self)@.routes[old_id].1;
                let order: Order = Order {
                    id: new_id,
                    side,
                    price: new_price,
                    size: new_size,
                    timestamp,
                };
                &&& final(self)@.books == old(self)@.books.insert(
                    symbol,
                    old(self)@.book(symbol).cancel(old_id, u32::MAX).match_limit(order),
                )
                &&& final(self)@.routes == old(self)@.routes.remove(old_id).insert(
                    new_id,
                    (symbol, side),
                )
            },
    {
        let ghost books0: Seq<SymbolBook> = self.books@;
        let ghost ids0: Map<u64, (usize, Side)> = self.id_map@;
        let found: Option<(usize, Side)> = match self.id_map.get(&old_id) {
            Some(at) => Some(*at),
            None => None,
        };
        match found {
            None => {},
            Some((slot, side)) => {
                proof {
                    lemma_slot(books0, slot as int);
                }
                let order: Order = Order {
                    id: new_id,
                    side,
                    price: new_price,
                    size: new_size,
                    timestamp,
                };
                let _ = self.books[slot].book.handle_cancel(old_id, u32::MAX);
                self.books[slot].book.match_limit(order);
                self.id_map.remove(&old_id);
                self.id_map.insert(new_id, (slot, side));
                proof {
                    let books2: Seq<SymbolBook> = self.books@;
                    lemma_books_update(books0, books2, slot as int);
                    assert(routes_map(books2, self.id_map@) =~= routes_map(books0, ids0).remove(
                        old_id,
                    ).insert(new_id, (books0[slot as int].symbol@, side)));
                }
            },
        }
    }

    /// How many events of each kind the engine has handled.
    pub fn stats(&self) -> (stats: EngineStats)
        ensures
            stats.total_new == self@.total_new,
            stats.total_cancel == self@.total_cancel,
            stats.total_replace == self@.total_replace,
    {
        self.stats
    }

    /// The book of `symbol`, if the engine has seen the symbol.
    pub fn book(&self, symbol: &String) -> (book: Option<&OrderBook>)
        requires
            self.wf(),
        ensures
            match book {
                Some(b) => self@.books.contains_key(symbol@) && b@ == self@.books[symbol@]
                    && b.wf(),
                None => !self@.books.contains_key(symbol@),
            },
    {
        match self.find(symbol) {
            Some(i) => {
                proof {
                    lemma_slot(self.books@, i as int);
                }
                Some(&self.books[i].book)
            },
            None => None,
        }
    }

    /// The symbol and side that order `id` is routed to, if any.
    pub fn route(&self, id: u64) -> (route: Option<(String, Side)>)
        requires
            self.wf(),
        ensures
            match route {
                Some(r) => self@.routes.contains_key(id) && (r.0@, r.1) == self@.routes[id],
                None => !self@.routes.contains_key(id),
            },
    {
        match self.id_map.get(&id) {
            Some(at) => {
                let slot: usize = at.0;
                let side: Side = at.1;
                Some((self.books[slot].symbol.clone(), side))
            },
            None => None,
        }
    }
}

} // verus!
