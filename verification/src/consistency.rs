//! Consistency of the index of a book with the orders that rest in it.
//!
//! The functions here are proofs. A book is consistent when its index and
//! its queues say the same: an id is indexed exactly when one order with
//! that id rests in the book, at the indexed side and price. Both operations
//! of a book keep it consistent, provided that an arriving order does not
//! reuse the id of an order that is still in the book.

use crate::book::BookView;
use crate::ladder::{
    crosses, has_level, ladder_wf, lemma_level_unique, lemma_place_queue, lemma_place_wf,
    lemma_reduce_keeps, level_at, level_wf, outranks, queue_at, sweep, swept_ids, withdraw,
    LevelView,
};
use crate::order::{Order, Side};
use crate::priority::{
    ahead, excess, lemma_ahead_of_best, lemma_drop_best_wf, lemma_queue_at_best,
    lemma_sweep_by_level, lemma_sweep_wf,
};
use crate::queue::{
    all_open, fill, filled_count, holds, ids, lemma_filled_count, lemma_holds_push,
    lemma_volume_positive, reduce, volume,
};
use vstd::prelude::*;

verus! {

/// No two orders of the queue share an id.
pub open spec fn unique_ids(q: Seq<Order>) -> bool {
    forall|a: int, b: int| 0 <= a < b < q.len() ==> (#[trigger] q[a]).id != (#[trigger] q[b]).id
}

/// Whether an order with `id` rests in the book on `side` at `price`.
pub open spec fn rests(book: BookView, id: u64, side: Side, price: u32) -> bool {
    holds(queue_at(book.side(side), price), id)
}

/// The index and the queues of the book say the same: every indexed id
/// rests where the index says, every resting order is indexed where it
/// rests, and no queue holds an id twice.
pub open spec fn indexed(book: BookView) -> bool {
    &&& forall|id: u64| #[trigger]
        book.index.contains_key(id) ==> rests(book, id, book.index[id].0, book.index[id].1)
    &&& forall|id: u64, side: Side, price: u32| #[trigger]
        rests(book, id, side, price) ==> book.index.contains_key(id) && book.index[id] == (
            side,
            price,
        )
    &&& forall|side: Side, price: u32|
        unique_ids(#[trigger] queue_at(book.side(side), price))
}

/// The orders of a filled queue are the orders of the old queue behind
/// those that were used up, each with its id, side and price.
pub proof fn lemma_fill_keeps(q: Seq<Order>, qty: nat)
    requires
        all_open(q),
    ensures
        fill(q, qty).len() == q.len() - filled_count(q, qty),
        forall|j: int|
            0 <= j < fill(q, qty).len() ==> {
                &&& (#[trigger] fill(q, qty)[j]).id == q[filled_count(q, qty) + j].id
                &&& fill(q, qty)[j].side == q[filled_count(q, qty) + j].side
                &&& fill(q, qty)[j].price == q[filled_count(q, qty) + j].price
            },
        unique_ids(q) ==> unique_ids(fill(q, qty)),
{
    lemma_filled_count(q, qty);
    let k: int = filled_count(q, qty) as int;
    let r: Seq<Order> = fill(q, qty);
    if unique_ids(q) {
        assert forall|a: int, b: int| 0 <= a < b < r.len() implies (#[trigger] r[a]).id != (
        #[trigger] r[b]).id by {
            assert(q[k + a].id != q[k + b].id);
        }
    }
}

/// Cancelling from a queue keeps the orders with other ids, keeps no id
/// that was not there, and keeps ids unique.
pub proof fn lemma_reduce_ids(q: Seq<Order>, id: u64, size: u32, other: u64)
    ensures
        other != id ==> holds(reduce(q, id, size), other) == holds(q, other),
        holds(reduce(q, id, size), other) ==> holds(q, other),
        unique_ids(q) ==> unique_ids(reduce(q, id, size)),
    decreases q.len(),
{
    if q.len() > 0 {
        let front: Seq<Order> = q.drop_last();
        let head: Seq<Order> = reduce(front, id, size);
        let o: Order = q.last();
        lemma_reduce_ids(front, id, size, other);
        assert(q =~= front.push(o));
        lemma_holds_push(front, o, other);
        lemma_holds_push(head, o, other);
        lemma_holds_push(head, o.with_size((o.size - size) as u32), other);
        if unique_ids(q) {
            assert(unique_ids(front)) by {
                assert forall|a: int, b: int| 0 <= a < b < front.len() implies (
                #[trigger] front[a]).id != (#[trigger] front[b]).id by {
                    assert(q[a].id != q[b].id);
                }
            }
            lemma_reduce_ids(front, id, size, o.id);
            if holds(front, o.id) {
                let a: int = choose|a: int|
                    0 <= a < front.len() && (#[trigger] front[a]).id == o.id;
                assert(q[a].id != q[q.len() - 1].id);
            }
            assert(!holds(head, o.id));
            let r: Seq<Order> = reduce(q, id, size);
            assert forall|a: int, b: int| 0 <= a < b < r.len() implies (#[trigger] r[a]).id != (
            #[trigger] r[b]).id by {
                if b < head.len() {
                    assert(head[a].id != head[b].id);
                } else {
                    assert(r[a] == head[a]);
                    assert(r[b].id == o.id);
                }
            }
        }
    }
}

/// A cancel keeps the ladder well formed, changes the queue at the price it
/// names as `reduce` says, and changes no other queue.
pub proof fn lemma_withdraw_queue(
    side: Side,
    levels: Seq<LevelView>,
    price: u32,
    id: u64,
    size: u32,
    at: u32,
)
    requires
        ladder_wf(side, levels),
    ensures
        ladder_wf(side, withdraw(levels, price, id, size)),
        at == price ==> queue_at(withdraw(levels, price, id, size), at) == reduce(
            queue_at(levels, price),
            id,
            size,
        ),
        at != price ==> queue_at(withdraw(levels, price, id, size), at) == queue_at(levels, at),
{
    let after: Seq<LevelView> = withdraw(levels, price, id, size);
    if has_level(levels, price) {
        let i: int = level_at(levels, price);
        let rest: Seq<Order> = reduce(levels[i].orders, id, size);
        lemma_level_unique(side, levels, i);
        assert(level_wf(side, levels[i]));
        lemma_reduce_keeps(side, price, levels[i].orders, id, size);
        if rest.len() == 0 {
            assert forall|j: int| 0 <= j < after.len() implies level_wf(
                side,
                #[trigger] after[j],
            ) by {
                let j0: int = if j < i { j } else { j + 1 };
                assert(after[j] == levels[j0]);
            }
            assert forall|a: int, b: int| 0 <= a < b < after.len() implies outranks(
                side,
                (#[trigger] after[b]).price,
                (#[trigger] after[a]).price,
            ) by {
                let a0: int = if a < i { a } else { a + 1 };
                let b0: int = if b < i { b } else { b + 1 };
                assert(after[a] == levels[a0]);
                assert(after[b] == levels[b0]);
            }
            if has_level(after, at) {
                let j: int = level_at(after, at);
                let j0: int = if j < i { j } else { j + 1 };
                assert(after[j] == levels[j0]);
                lemma_level_unique(side, levels, j0);
                lemma_level_unique(side, after, j);
            }
            if at != price && has_level(levels, at) {
                let j0: int = level_at(levels, at);
                let j: int = if j0 < i { j0 } else { j0 - 1 };
                assert(after[j] == levels[j0]);
                lemma_level_unique(side, levels, j0);
                lemma_level_unique(side, after, j);
            }
            assert(rest =~= Seq::<Order>::empty());
        } else {
            let shrunk: LevelView = LevelView { price: price, orders: rest };
            assert(level_wf(side, shrunk));
            assert forall|j: int| 0 <= j < after.len() implies level_wf(
                side,
                #[trigger] after[j],
            ) by {
                if j != i {
                    assert(after[j] == levels[j]);
                }
            }
            assert forall|a: int, b: int| 0 <= a < b < after.len() implies outranks(
                side,
                (#[trigger] after[b]).price,
                (#[trigger] after[a]).price,
            ) by {
                assert(after[a].price == levels[a].price);
                assert(after[b].price == levels[b].price);
            }
            lemma_level_unique(side, after, i);
            if at != price {
                if has_level(levels, at) {
                    let j: int = level_at(levels, at);
                    assert(after[j] == levels[j]);
                    lemma_level_unique(side, levels, j);
                    lemma_level_unique(side, after, j);
                }
                if has_level(after, at) {
                    let j: int = level_at(after, at);
                    assert(after[j] == levels[j]);
                    assert(levels[j].price == at);
                }
            }
        }
    } else {
        assert(reduce(Seq::<Order>::empty(), id, size) =~= Seq::<Order>::empty());
    }
}

/// The ids of the orders at `price` that an incoming order of size `qty`
/// and limit `limit` uses up completely.
pub open spec fn used_up(
    side: Side,
    levels: Seq<LevelView>,
    limit: u32,
    qty: nat,
    price: u32,
) -> Set<u64> {
    if crosses(side, price, limit) {
        let queue: Seq<Order> = queue_at(levels, price);
        ids(queue.take(filled_count(queue, excess(qty, ahead(side, levels, price))) as int))
    } else {
        Set::empty()
    }
}

/// The queue at a price is open, and the best level outranks every other.
proof fn lemma_queue_open(side: Side, levels: Seq<LevelView>, price: u32)
    requires
        ladder_wf(side, levels),
    ensures
        all_open(queue_at(levels, price)),
        has_level(levels, price) ==> queue_at(levels, price).len() > 0,
        has_level(levels, price) && price != levels.last().price ==> outranks(
            side,
            levels.last().price,
            price,
        ),
{
    if has_level(levels, price) {
        let i: int = level_at(levels, price);
        assert(level_wf(side, levels[i]));
        if i < levels.len() - 1 {
            assert(outranks(side, levels[levels.len() - 1].price, levels[i].price));
        }
    }
}

/// An order that is used up at its price is among the swept ids.
pub proof fn lemma_used_up_is_swept(
    side: Side,
    levels: Seq<LevelView>,
    limit: u32,
    qty: nat,
    price: u32,
    id: u64,
)
    requires
        ladder_wf(side, levels),
        used_up(side, levels, limit, qty, price).contains(id),
    ensures
        swept_ids(side, levels, limit, qty).contains(id),
    decreases levels.len(),
{
    let queue: Seq<Order> = queue_at(levels, price);
    let share: nat = excess(qty, ahead(side, levels, price));
    let n: int = filled_count(queue, share) as int;
    let j: int = choose|j: int|
        0 <= j < queue.take(n).len() && (#[trigger] queue.take(n)[j]).id == id;
    lemma_filled_count(queue, share);
    lemma_queue_open(side, levels, price);
    assert(has_level(levels, price));
    assert(queue[0].size > 0);
    let best: LevelView = levels.last();
    let rest: Seq<LevelView> = levels.drop_last();
    lemma_queue_at_best(side, levels, price);
    lemma_drop_best_wf(side, levels);
    lemma_queue_open(side, levels, best.price);
    lemma_level_unique(side, levels, levels.len() - 1);
    lemma_volume_positive(best.orders);
    if price == best.price {
        lemma_ahead_of_best(side, levels);
        if qty >= volume(best.orders) {
            assert(best.orders[j].id == id);
        }
    } else {
        assert(share > 0);
        lemma_used_up_is_swept(side, rest, limit, (qty - volume(best.orders)) as nat, price, id);
    }
}

/// A swept id is the id of an order that is used up at some price.
pub proof fn lemma_swept_is_used_up(
    side: Side,
    levels: Seq<LevelView>,
    limit: u32,
    qty: nat,
    id: u64,
) -> (price: u32)
    requires
        ladder_wf(side, levels),
        swept_ids(side, levels, limit, qty).contains(id),
    ensures
        used_up(side, levels, limit, qty, price).contains(id),
    decreases levels.len(),
{
    let best: LevelView = levels.last();
    let rest: Seq<LevelView> = levels.drop_last();
    lemma_queue_at_best(side, levels, best.price);
    lemma_drop_best_wf(side, levels);
    lemma_level_unique(side, levels, levels.len() - 1);
    lemma_ahead_of_best(side, levels);
    lemma_filled_count(best.orders, qty);
    if qty >= volume(best.orders) && !ids(best.orders).contains(id) {
        let qty2: nat = (qty - volume(best.orders)) as nat;
        let price: u32 = lemma_swept_is_used_up(side, rest, limit, qty2, id);
        let queue: Seq<Order> = queue_at(rest, price);
        let n: int = filled_count(queue, excess(qty2, ahead(side, rest, price))) as int;
        let j: int = choose|j: int|
            0 <= j < queue.take(n).len() && (#[trigger] queue.take(n)[j]).id == id;
        assert(has_level(rest, price));
        lemma_queue_at_best(side, levels, price);
        lemma_queue_open(side, levels, price);
        price
    } else {
        if qty >= volume(best.orders) {
            assert(best.orders.take(best.orders.len() as int) =~= best.orders);
        }
        best.price
    }
}

/// A cancel keeps a well-formed, consistent book well formed and
/// consistent.
pub proof fn lemma_cancel_indexed(book: BookView, id: u64, size: u32)
    requires
        book.wf(),
        indexed(book),
    ensures
        book.cancel(id, size).wf(),
        indexed(book.cancel(id, size)),
{
    if book.index.contains_key(id) {
        let side: Side = book.index[id].0;
        let price: u32 = book.index[id].1;
        let after: BookView = book.cancel(id, size);
        let queue: Seq<Order> = queue_at(book.side(side), price);
        lemma_withdraw_queue(side, book.side(side), price, id, size, price);
        assert forall|other: u64| #[trigger]
            after.index.contains_key(other) implies rests(
            after,
            other,
            after.index[other].0,
            after.index[other].1,
        ) by {
            let s: Side = book.index[other].0;
            let p: u32 = book.index[other].1;
            assert(book.index.contains_key(other));
            assert(rests(book, other, s, p));
            if s == side {
                lemma_withdraw_queue(side, book.side(side), price, id, size, p);
                lemma_reduce_ids(queue, id, size, other);
            }
        }
        assert forall|other: u64, s: Side, p: u32| #[trigger]
            rests(after, other, s, p) implies after.index.contains_key(other) && after.index[other]
            == (s, p) by {
            if s == side {
                lemma_withdraw_queue(side, book.side(side), price, id, size, p);
                lemma_reduce_ids(queue, id, size, other);
            }
            assert(rests(book, other, s, p));
        }
        assert forall|s: Side, p: u32|
            unique_ids(#[trigger] queue_at(after.side(s), p)) by {
            assert(unique_ids(queue_at(book.side(s), p)));
            if s == side {
                lemma_withdraw_queue(side, book.side(side), price, id, size, p);
                lemma_reduce_ids(queue, id, size, id);
            }
        }
    }
}

/// Sweeping one side keeps a well-formed, consistent book well formed and
/// consistent.
proof fn lemma_sweep_indexed(book: BookView, side: Side, limit: u32, qty: nat)
    requires
        book.wf(),
        indexed(book),
    ensures
        indexed(
            BookView {
                index: book.index.remove_keys(swept_ids(side, book.side(side), limit, qty)),
                ..book.with_side(side, sweep(side, book.side(side), limit, qty))
            },
        ),
{
    let levels: Seq<LevelView> = book.side(side);
    let swept: Set<u64> = swept_ids(side, levels, limit, qty);
    let after: BookView = BookView {
        index: book.index.remove_keys(swept),
        ..book.with_side(side, sweep(side, levels, limit, qty))
    };
    assert forall|id: u64| #[trigger]
        after.index.contains_key(id) implies rests(
        after,
        id,
        after.index[id].0,
        after.index[id].1,
    ) by {
        let s: Side = book.index[id].0;
        let p: u32 = book.index[id].1;
        assert(book.index.contains_key(id));
        assert(rests(book, id, s, p));
        if s == side && crosses(side, p, limit) {
            let queue: Seq<Order> = queue_at(levels, p);
            let share: nat = excess(qty, ahead(side, levels, p));
            let n: int = filled_count(queue, share) as int;
            lemma_sweep_by_level(side, levels, limit, qty, p);
            lemma_queue_open(side, levels, p);
            lemma_fill_keeps(queue, share);
            lemma_filled_count(queue, share);
            let k: int = choose|k: int| 0 <= k < queue.len() && (#[trigger] queue[k]).id == id;
            if k < n {
                assert(queue.take(n)[k].id == id);
                lemma_used_up_is_swept(side, levels, limit, qty, p, id);
            }
            assert(fill(queue, share)[k - n].id == id);
        } else if s == side {
            lemma_sweep_by_level(side, levels, limit, qty, p);
        }
    }
    assert forall|id: u64, s: Side, p: u32| #[trigger]
        rests(after, id, s, p) implies after.index.contains_key(id) && after.index[id] == (
        s,
        p,
    ) by {
        let queue: Seq<Order> = queue_at(levels, p);
        let share: nat = excess(qty, ahead(side, levels, p));
        let n: int = filled_count(queue, share) as int;
        let j: int = choose|j: int|
            0 <= j < fill(queue, share).len() && (#[trigger] fill(queue, share)[j]).id == id;
        let at: int = n + j;
        if s == side {
            lemma_sweep_by_level(side, levels, limit, qty, p);
            lemma_queue_open(side, levels, p);
            lemma_fill_keeps(queue, share);
            lemma_filled_count(queue, share);
            if crosses(side, p, limit) {
                assert(queue[at].id == id);
            }
        }
        assert(rests(book, id, s, p));
        if swept.contains(id) {
            let found: u32 = lemma_swept_is_used_up(side, levels, limit, qty, id);
            let found_queue: Seq<Order> = queue_at(levels, found);
            let found_share: nat = excess(qty, ahead(side, levels, found));
            let found_n: int = filled_count(found_queue, found_share) as int;
            let found_j: int = choose|found_j: int|
                0 <= found_j < found_queue.take(found_n).len() && (#[trigger] found_queue.take(
                    found_n,
                )[found_j]).id == id;
            lemma_filled_count(found_queue, excess(qty, ahead(side, levels, found)));
            assert(found_queue[found_j].id == id);
            assert(rests(book, id, side, found));
            assert(unique_ids(queue_at(book.side(side), p)));
            assert(queue[found_j].id != queue[at].id);
        }
    }
    assert forall|s: Side, p: u32| unique_ids(#[trigger] queue_at(after.side(s), p)) by {
        assert(unique_ids(queue_at(book.side(s), p)));
        if s == side {
            lemma_sweep_by_level(side, levels, limit, qty, p);
            lemma_queue_open(side, levels, p);
            lemma_fill_keeps(queue_at(levels, p), excess(qty, ahead(side, levels, p)));
        }
    }
}

/// An arriving order whose id is not in the index keeps a well-formed,
/// consistent book well formed and consistent.
pub proof fn lemma_match_indexed(book: BookView, order: Order)
    requires
        book.wf(),
        indexed(book),
        !book.index.contains_key(order.id),
    ensures
        book.match_limit(order).wf(),
        indexed(book.match_limit(order)),
{
    let other: Side = order.side.spec_opposite();
    let swept: BookView = BookView {
        index: book.index.remove_keys(
            swept_ids(other, book.side(other), order.price, order.size as nat),
        ),
        ..book.with_side(other, sweep(other, book.side(other), order.price, order.size as nat))
    };
    lemma_sweep_wf(other, book.side(other), order.price, order.size as nat);
    lemma_sweep_indexed(book, other, order.price, order.size as nat);
    let left: int = order.size - book.matched(order);
    if left > 0 {
        let rest: Order = order.with_size(left as u32);
        let own: Seq<LevelView> = swept.side(order.side);
        let after: BookView = book.match_limit(order);
        lemma_place_wf(order.side, own, rest);
        assert forall|id: u64| #[trigger]
            after.index.contains_key(id) implies rests(
            after,
            id,
            after.index[id].0,
            after.index[id].1,
        ) by {
            if id == order.id {
                lemma_place_queue(order.side, own, rest, order.price);
                lemma_holds_push(queue_at(own, order.price), rest, id);
            } else {
                let s: Side = swept.index[id].0;
                let p: u32 = swept.index[id].1;
                assert(swept.index.contains_key(id));
                assert(rests(swept, id, s, p));
                if s == order.side {
                    lemma_place_queue(order.side, own, rest, p);
                    lemma_holds_push(queue_at(own, p), rest, id);
                }
            }
        }
        assert forall|id: u64, s: Side, p: u32| #[trigger]
            rests(after, id, s, p) implies after.index.contains_key(id) && after.index[id] == (
            s,
            p,
        ) by {
            if s == order.side {
                lemma_place_queue(order.side, own, rest, p);
                lemma_holds_push(queue_at(own, p), rest, id);
            }
            if rests(swept, id, s, p) {
                assert(swept.index.contains_key(id));
            }
        }
        assert forall|s: Side, p: u32| unique_ids(#[trigger] queue_at(after.side(s), p)) by {
            let queue: Seq<Order> = queue_at(swept.side(s), p);
            assert(unique_ids(queue));
            if s == order.side && p == order.price {
                lemma_place_queue(order.side, own, rest, p);
                if holds(queue, order.id) {
                    assert(rests(swept, order.id, s, p));
                }
                let grown: Seq<Order> = queue.push(rest);
                assert forall|a: int, b: int| 0 <= a < b < grown.len() implies (
                #[trigger] grown[a]).id != (#[trigger] grown[b]).id by {
                    if b < queue.len() {
                        assert(queue[a].id != queue[b].id);
                    } else {
                        assert(queue[a].id != order.id);
                    }
                }
            } else if s == order.side {
                lemma_place_queue(order.side, own, rest, p);
            }
        }
    }
}

} // verus!
