//! What holds of an engine after every event.
//!
//! The functions here are proofs: that no event leaves an empty price level
//! behind, that an event for an unknown id changes nothing, and that the
//! routes of the engine agree with its books as long as no arriving order
//! reuses the id of an order that still rests.

use crate::book::BookView;
use crate::consistency::{
    indexed, lemma_cancel_indexed, lemma_match_indexed, lemma_withdraw_queue, rests, unique_ids,
};
use crate::engine::EngineView;
use crate::ladder::{lemma_place_wf, level_wf, queue_at, LevelView};
use crate::order::{Order, OrderEvent, Side};
use crate::priority::lemma_sweep_wf;
use crate::queue::{holds, lemma_holds_push, reduce};
use vstd::prelude::*;

verus! {

/// An arriving order keeps a well-formed book well formed.
pub proof fn lemma_match_wf(book: BookView, order: Order)
    requires
        book.wf(),
    ensures
        book.match_limit(order).wf(),
{
    let other: Side = order.side.spec_opposite();
    lemma_sweep_wf(other, book.side(other), order.price, order.size as nat);
    let left: int = order.size - book.matched(order);
    if left > 0 {
        lemma_place_wf(order.side, book.side(order.side), order.with_size(left as u32));
    }
}

/// A cancel keeps a well-formed book well formed.
pub proof fn lemma_cancel_wf(book: BookView, id: u64, size: u32)
    requires
        book.wf(),
    ensures
        book.cancel(id, size).wf(),
{
    if book.index.contains_key(id) {
        let side: Side = book.index[id].0;
        let price: u32 = book.index[id].1;
        lemma_withdraw_queue(side, book.side(side), price, id, size, price);
    }
}

/// No empty levels. Every event keeps a well-formed engine well formed, and
/// in a well-formed engine every price level of every book holds an order.
pub proof fn lemma_no_empty_levels(engine: EngineView, ev: OrderEvent)
    requires
        engine.wf(),
    ensures
        engine.handle(ev).wf(),
        forall|symbol: Seq<char>, side: Side, i: int|
            engine.handle(ev).books.contains_key(symbol) && 0 <= i < engine.handle(
                ev,
            ).books[symbol].side(side).len() ==> (#[trigger] engine.handle(ev).books[symbol].side(
                side,
            )[i]).orders.len() > 0,
{
    let after: EngineView = engine.handle(ev);
    match ev {
        OrderEvent::New { timestamp, id, symbol, side, price, size } => {
            lemma_match_wf(engine.book(symbol@), Order { id, side, price, size, timestamp });
        },
        OrderEvent::Cancel { timestamp, id, size } => {
            if engine.routes.contains_key(id) {
                lemma_cancel_wf(engine.book(engine.routes[id].0), id, size);
            }
        },
        OrderEvent::Replace { timestamp, old_id, new_id, new_size, new_price } => {
            if engine.routes.contains_key(old_id) {
                let symbol: Seq<char> = engine.routes[old_id].0;
                let side: Side = engine.routes[old_id].1;
                lemma_cancel_wf(engine.book(symbol), old_id, u32::MAX);
                lemma_match_wf(
                    engine.book(symbol).cancel(old_id, u32::MAX),
                    Order { id: new_id, side, price: new_price, size: new_size, timestamp },
                );
            }
        },
    }
    assert(after.wf()) by {
        assert forall|s: Seq<char>| after.books.contains_key(s) implies (
        #[trigger] after.books[s]).wf() by {
            if engine.books.contains_key(s) {
                assert(engine.books[s].wf());
            }
        }
        assert forall|id: u64| after.routes.contains_key(id) implies after.books.contains_key(
            (#[trigger] after.routes[id]).0,
        ) by {
            if engine.routes.contains_key(id) {
                assert(engine.books.contains_key(engine.routes[id].0));
            }
        }
    }
    assert forall|symbol: Seq<char>, side: Side, i: int|
        after.books.contains_key(symbol) && 0 <= i < after.books[symbol].side(
            side,
        ).len() implies (#[trigger] after.books[symbol].side(side)[i]).orders.len() > 0 by {
        assert(after.books[symbol].wf());
        assert(level_wf(side, after.books[symbol].side(side)[i]));
    }
}

/// Idempotent miss at the book. A cancel for an id that the book does not
/// index changes nothing and reports that nothing was removed.
pub proof fn lemma_cancel_miss(book: BookView, id: u64, size: u32)
    requires
        !book.index.contains_key(id),
    ensures
        book.cancel(id, size) == book,
        !book.cancel_removes(id, size),
{
}

/// Idempotent miss at the engine. A cancel or a replace for an id without a
/// route changes no book and no route: it is counted and nothing else.
pub proof fn lemma_miss_changes_nothing(engine: EngineView, ev: OrderEvent)
    requires
        match ev {
            OrderEvent::New { .. } => false,
            OrderEvent::Cancel { id, .. } => !engine.routes.contains_key(id),
            OrderEvent::Replace { old_id, .. } => !engine.routes.contains_key(old_id),
        },
    ensures
        engine.handle(ev) == engine.counted(ev),
        engine.handle(ev).books == engine.books,
        engine.handle(ev).routes == engine.routes,
{
}

/// Whether an order with `id` is indexed in the book of `symbol`.
pub open spec fn live_in(engine: EngineView, id: u64, symbol: Seq<char>) -> bool {
    engine.books.contains_key(symbol) && engine.books[symbol].index.contains_key(id)
}

/// The routes agree with the books: every book is consistent, and every
/// order in a book is routed to that book's symbol and to its own side.
pub open spec fn consistent(engine: EngineView) -> bool {
    &&& engine.wf()
    &&& forall|symbol: Seq<char>|
        engine.books.contains_key(symbol) ==> indexed(#[trigger] engine.books[symbol])
    &&& forall|symbol: Seq<char>, id: u64| #[trigger]
        live_in(engine, id, symbol) ==> engine.routes.contains_key(id) && engine.routes[id] == (
            symbol,
            engine.books[symbol].index[id].0,
        )
}

/// Whether `ev` brings no id into a book that an order resting in some book
/// already carries.
pub open spec fn fresh(engine: EngineView, ev: OrderEvent) -> bool {
    match ev {
        OrderEvent::New { id, .. } => forall|symbol: Seq<char>| !live_in(engine, id, symbol),
        OrderEvent::Cancel { .. } => true,
        OrderEvent::Replace { old_id, new_id, .. } => engine.routes.contains_key(old_id) && new_id
            != old_id ==> forall|symbol: Seq<char>| !live_in(engine, new_id, symbol),
    }
}

/// A cancel of the largest size takes the id out of the index and leaves
/// every other entry as it was.
proof fn lemma_cancel_all(book: BookView, id: u64)
    requires
        book.wf(),
    ensures
        book.cancel(id, u32::MAX).index == book.index.remove(id),
{
    if book.index.contains_key(id) {
        let side: Side = book.index[id].0;
        let price: u32 = book.index[id].1;
        lemma_reduce_all(queue_at(book.side(side), price), id);
        lemma_withdraw_queue(side, book.side(side), price, id, u32::MAX, price);
    } else {
        assert(book.index.remove(id) =~= book.index);
    }
}

/// The empty book is consistent.
proof fn lemma_empty_indexed()
    ensures
        BookView::empty().wf(),
        indexed(BookView::empty()),
{
    let book: BookView = BookView::empty();
    assert forall|id: u64, side: Side, price: u32| !rests(book, id, side, price) by {
        assert(book.side(side) =~= Seq::<LevelView>::empty());
    }
    assert forall|side: Side, price: u32|
        unique_ids(#[trigger] queue_at(book.side(side), price)) by {
        assert(book.side(side) =~= Seq::<LevelView>::empty());
    }
}

/// A cancel of the largest size leaves no order with the id in the queue.
proof fn lemma_reduce_all(q: Seq<Order>, id: u64)
    ensures
        !holds(reduce(q, id, u32::MAX), id),
    decreases q.len(),
{
    if q.len() > 0 {
        lemma_reduce_all(q.drop_last(), id);
        lemma_holds_push(reduce(q.drop_last(), id, u32::MAX), q.last(), id);
    }
}

/// The engine that has seen no event is consistent.
pub proof fn lemma_empty_consistent()
    ensures
        consistent(EngineView::empty()),
{
}

/// An engine with the books and routes of a consistent engine is
/// consistent.
proof fn lemma_miss_keeps_consistent(engine: EngineView, after: EngineView)
    requires
        consistent(engine),
        after.books == engine.books,
        after.routes == engine.routes,
    ensures
        consistent(after),
{
    assert forall|s: Seq<char>| after.books.contains_key(s) implies indexed(
        #[trigger] after.books[s],
    ) by {
        assert(indexed(engine.books[s]));
    }
    assert forall|s: Seq<char>, other: u64| #[trigger]
        live_in(after, other, s) implies after.routes.contains_key(other) && after.routes[other]
        == (s, after.books[s].index[other].0) by {
        assert(live_in(engine, other, s));
    }
    assert forall|s: Seq<char>| after.books.contains_key(s) implies (
    #[trigger] after.books[s]).wf() by {
        assert(engine.books[s].wf());
    }
    assert forall|id: u64| after.routes.contains_key(id) implies after.books.contains_key(
        (#[trigger] after.routes[id]).0,
    ) by {
        assert(engine.books.contains_key(engine.routes[id].0));
    }
}

/// Index consistency is kept. An event that reuses no id of a resting order
/// takes a consistent engine to a consistent engine.
pub proof fn lemma_handle_consistent(engine: EngineView, ev: OrderEvent)
    requires
        consistent(engine),
        fresh(engine, ev),
    ensures
        consistent(engine.handle(ev)),
{
    let after: EngineView = engine.handle(ev);
    lemma_no_empty_levels(engine, ev);
    match ev {
        OrderEvent::New { timestamp, id, symbol, side, price, size } => {
            let order: Order = Order { id, side, price, size, timestamp };
            let book: BookView = engine.book(symbol@);
            lemma_empty_indexed();
            if engine.books.contains_key(symbol@) {
                assert(indexed(engine.books[symbol@]));
                assert(!live_in(engine, id, symbol@));
            }
            lemma_match_indexed(book, order);
            assert forall|s: Seq<char>| after.books.contains_key(s) implies indexed(
                #[trigger] after.books[s],
            ) by {
                if s != symbol@ {
                    assert(indexed(engine.books[s]));
                }
            }
            assert forall|s: Seq<char>, other: u64| #[trigger]
                live_in(after, other, s) implies after.routes.contains_key(other)
                && after.routes[other] == (s, after.books[s].index[other].0) by {
                if s == symbol@ {
                    if other != id {
                        assert(live_in(engine, other, s));
                    }
                } else {
                    assert(live_in(engine, other, s));
                    assert(!live_in(engine, id, s));
                }
            }
        },
        OrderEvent::Cancel { timestamp, id, size } => {
            if engine.routes.contains_key(id) {
                let symbol: Seq<char> = engine.routes[id].0;
                let book: BookView = engine.book(symbol);
                assert(engine.books.contains_key(symbol));
                assert(indexed(engine.books[symbol]));
                lemma_cancel_indexed(book, id, size);
                assert forall|s: Seq<char>| after.books.contains_key(s) implies indexed(
                    #[trigger] after.books[s],
                ) by {
                    if s != symbol {
                        assert(indexed(engine.books[s]));
                    }
                }
                assert forall|s: Seq<char>, other: u64| #[trigger]
                    live_in(after, other, s) implies after.routes.contains_key(other)
                    && after.routes[other] == (s, after.books[s].index[other].0) by {
                    assert(live_in(engine, other, s));
                }
            } else {
                lemma_miss_keeps_consistent(engine, after);
            }
        },
        OrderEvent::Replace { timestamp, old_id, new_id, new_size, new_price } => {
            if engine.routes.contains_key(old_id) {
                let symbol: Seq<char> = engine.routes[old_id].0;
                let side: Side = engine.routes[old_id].1;
                let order: Order = Order {
                    id: new_id,
                    side,
                    price: new_price,
                    size: new_size,
                    timestamp,
                };
                let book: BookView = engine.book(symbol);
                let without: BookView = book.cancel(old_id, u32::MAX);
                assert(engine.books.contains_key(symbol));
                assert(indexed(engine.books[symbol]));
                lemma_cancel_indexed(book, old_id, u32::MAX);
                lemma_cancel_all(book, old_id);
                if new_id != old_id {
                    assert(!live_in(engine, new_id, symbol));
                }
                lemma_match_indexed(without, order);
                assert forall|s: Seq<char>| after.books.contains_key(s) implies indexed(
                    #[trigger] after.books[s],
                ) by {
                    if s != symbol {
                        assert(indexed(engine.books[s]));
                    }
                }
                assert forall|s: Seq<char>, other: u64| #[trigger]
                    live_in(after, other, s) implies after.routes.contains_key(other)
                    && after.routes[other] == (s, after.books[s].index[other].0) by {
                    if s == symbol {
                        if other != new_id {
                            assert(without.index.contains_key(other));
                            assert(live_in(engine, other, s));
                        }
                    } else {
                        assert(live_in(engine, other, s));
                        if other == new_id && new_id != old_id {
                            assert(!live_in(engine, new_id, s));
                        }
                    }
                }
            } else {
                lemma_miss_keeps_consistent(engine, after);
            }
        },
    }
}

/// Index consistency. In a consistent engine an order that rests in a book
/// is routed to that book and to its own side, is indexed in that book at
/// its own side and price, rests there once, and rests nowhere else. So an
/// id without a route rests in no book.
pub proof fn lemma_resting_order_is_routed(
    engine: EngineView,
    id: u64,
    symbol: Seq<char>,
    side: Side,
    price: u32,
)
    requires
        consistent(engine),
        engine.books.contains_key(symbol),
        rests(engine.books[symbol], id, side, price),
    ensures
        engine.routes.contains_key(id),
        engine.routes[id] == (symbol, side),
        engine.books[symbol].index.contains_key(id),
        engine.books[symbol].index[id] == (side, price),
        unique_ids(queue_at(engine.books[symbol].side(side), price)),
        forall|symbol2: Seq<char>, side2: Side, price2: u32|
            engine.books.contains_key(symbol2) && #[trigger] rests(
                engine.books[symbol2],
                id,
                side2,
                price2,
            ) ==> symbol2 == symbol && side2 == side && price2 == price,
{
    assert(indexed(engine.books[symbol]));
    assert(live_in(engine, id, symbol));
    assert forall|symbol2: Seq<char>, side2: Side, price2: u32|
        engine.books.contains_key(symbol2) && #[trigger] rests(
            engine.books[symbol2],
            id,
            side2,
            price2,
        ) implies symbol2 == symbol && side2 == side && price2 == price by {
        assert(indexed(engine.books[symbol2]));
        assert(live_in(engine, id, symbol2));
    }
}

/// The engine after a sequence of events, applied in order.
pub open spec fn replay(engine: EngineView, events: Seq<OrderEvent>) -> EngineView
    decreases events.len(),
{
    if events.len() == 0 {
        engine
    } else {
        replay(engine, events.drop_last()).handle(events.last())
    }
}

/// Whether each event of the sequence is fresh at the time it is applied.
pub open spec fn all_fresh(engine: EngineView, events: Seq<OrderEvent>) -> bool {
    forall|k: int|
        0 <= k < events.len() ==> fresh(replay(engine, #[trigger] events.take(k)), events[k])
}

/// Every state that the engine reaches is well formed, and consistent as
/// long as no event reuses the id of an order that still rests.
pub proof fn lemma_replay_consistent(events: Seq<OrderEvent>)
    ensures
        replay(EngineView::empty(), events).wf(),
        all_fresh(EngineView::empty(), events) ==> consistent(
            replay(EngineView::empty(), events),
        ),
    decreases events.len(),
{
    let start: EngineView = EngineView::empty();
    if events.len() > 0 {
        let before: Seq<OrderEvent> = events.drop_last();
        lemma_replay_consistent(before);
        lemma_no_empty_levels(replay(start, before), events.last());
        if all_fresh(start, events) {
            assert forall|k: int| 0 <= k < before.len() implies fresh(
                replay(start, #[trigger] before.take(k)),
                before[k],
            ) by {
                assert(before.take(k) =~= events.take(k));
            }
            assert(events.take(events.len() - 1) =~= before);
            lemma_handle_consistent(replay(start, before), events.last());
        }
    }
}

} // verus!
