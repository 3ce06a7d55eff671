//! Price-time priority, stated for every book and every incoming order.
//!
//! The functions here are proofs. They say what the definitions of the
//! ladder and the queue amount to: a resting order trades only after every
//! order ahead of it is used up, where the orders ahead of it are those at
//! better prices and, at its own price, those that arrived before it.

use crate::ladder::{
    crosses, has_level, ladder_wf, lemma_fill_level_wf, lemma_level_unique, lemma_place_queue,
    lemma_place_wf, level_at, level_wf, outranks, place, queue_at, sweep, LevelView,
};
use crate::book::BookView;
use crate::order::{Order, Side};
use crate::queue::{
    all_open, fill, filled_count, lemma_fill_empty, lemma_fill_stop, lemma_fill_volume,
    lemma_filled_count, lemma_volume_positive, volume,
};
use vstd::prelude::*;

verus! {

/// The open quantity resting at prices that trade before `price`.
pub open spec fn ahead(side: Side, levels: Seq<LevelView>, price: u32) -> nat
    decreases levels.len(),
{
    if levels.len() == 0 {
        0
    } else {
        ahead(side, levels.drop_last(), price) + if outranks(side, levels.last().price, price) {
            volume(levels.last().orders)
        } else {
            0
        }
    }
}

/// What is left of `qty` once `taken` is gone.
pub open spec fn excess(qty: nat, taken: nat) -> nat {
    if qty > taken {
        (qty - taken) as nat
    } else {
        0
    }
}

/// A well-formed ladder without its best level is well formed.
pub proof fn lemma_drop_best_wf(side: Side, levels: Seq<LevelView>)
    requires
        ladder_wf(side, levels),
        levels.len() > 0,
    ensures
        ladder_wf(side, levels.drop_last()),
{
    let rest: Seq<LevelView> = levels.drop_last();
    assert forall|i: int| 0 <= i < rest.len() implies level_wf(side, #[trigger] rest[i]) by {
        assert(rest[i] == levels[i]);
    }
    assert forall|i: int, j: int| 0 <= i < j < rest.len() implies outranks(
        side,
        (#[trigger] rest[j]).price,
        (#[trigger] rest[i]).price,
    ) by {
        assert(rest[i] == levels[i]);
        assert(rest[j] == levels[j]);
    }
}

/// The queue at a price, read off the best level or the levels below it.
pub proof fn lemma_queue_at_best(side: Side, levels: Seq<LevelView>, price: u32)
    requires
        ladder_wf(side, levels),
        levels.len() > 0,
    ensures
        price == levels.last().price ==> queue_at(levels, price) == levels.last().orders
            && !has_level(levels.drop_last(), price),
        price != levels.last().price ==> queue_at(levels, price) == queue_at(
            levels.drop_last(),
            price,
        ) && has_level(levels, price) == has_level(levels.drop_last(), price),
        outranks(side, price, levels.last().price) ==> !has_level(levels, price),
{
    let rest: Seq<LevelView> = levels.drop_last();
    let top: int = levels.len() - 1;
    lemma_drop_best_wf(side, levels);
    if price == levels.last().price {
        lemma_level_unique(side, levels, top);
        if has_level(rest, price) {
            let i: int = level_at(rest, price);
            assert(rest[i] == levels[i]);
            assert(outranks(side, levels[top].price, levels[i].price));
        }
    } else {
        if has_level(levels, price) {
            let i: int = level_at(levels, price);
            assert(i < top);
            assert(rest[i] == levels[i]);
            assert(rest[i].price == price);
            lemma_level_unique(side, levels, i);
            lemma_level_unique(side, rest, i);
        }
        if has_level(rest, price) {
            let i: int = level_at(rest, price);
            assert(rest[i] == levels[i]);
            assert(levels[i].price == price);
        }
    }
    if outranks(side, price, levels.last().price) && has_level(levels, price) {
        let i: int = level_at(levels, price);
        if i < top {
            assert(outranks(side, levels[top].price, levels[i].price));
        }
    }
}

/// Trading against a well-formed ladder leaves a well-formed ladder.
pub proof fn lemma_sweep_wf(side: Side, levels: Seq<LevelView>, limit: u32, qty: nat)
    requires
        ladder_wf(side, levels),
    ensures
        ladder_wf(side, sweep(side, levels, limit, qty)),
    decreases levels.len(),
{
    if levels.len() == 0 || qty == 0 || !crosses(side, levels.last().price, limit) {
    } else {
        let best: LevelView = levels.last();
        let rest: Seq<LevelView> = levels.drop_last();
        lemma_drop_best_wf(side, levels);
        if qty >= volume(best.orders) {
            lemma_sweep_wf(side, rest, limit, (qty - volume(best.orders)) as nat);
        } else {
            let shrunk: LevelView = LevelView { price: best.price, orders: fill(best.orders, qty) };
            let after: Seq<LevelView> = rest.push(shrunk);
            lemma_fill_level_wf(side, best, qty);
            assert forall|i: int| 0 <= i < after.len() implies level_wf(
                side,
                #[trigger] after[i],
            ) by {
                if i < rest.len() {
                    assert(after[i] == levels[i]);
                }
            }
            assert forall|i: int, j: int| 0 <= i < j < after.len() implies outranks(
                side,
                (#[trigger] after[j]).price,
                (#[trigger] after[i]).price,
            ) by {
                assert(after[i] == levels[i]);
                assert(after[j].price == levels[j].price);
            }
        }
    }
}

/// No volume is ahead of a price that no level outranks.
pub proof fn lemma_ahead_none(side: Side, levels: Seq<LevelView>, price: u32)
    requires
        forall|i: int|
            0 <= i < levels.len() ==> !outranks(side, (#[trigger] levels[i]).price, price),
    ensures
        ahead(side, levels, price) == 0,
    decreases levels.len(),
{
    if levels.len() > 0 {
        let rest: Seq<LevelView> = levels.drop_last();
        assert forall|i: int| 0 <= i < rest.len() implies !outranks(
            side,
            (#[trigger] rest[i]).price,
            price,
        ) by {
            assert(rest[i] == levels[i]);
        }
        lemma_ahead_none(side, rest, price);
        assert(levels.last() == levels[levels.len() - 1]);
    }
}

/// Nothing is ahead of the best price.
pub proof fn lemma_ahead_of_best(side: Side, levels: Seq<LevelView>)
    requires
        ladder_wf(side, levels),
        levels.len() > 0,
    ensures
        ahead(side, levels, levels.last().price) == 0,
{
    let top: int = levels.len() - 1;
    assert forall|i: int| 0 <= i < levels.len() implies !outranks(
        side,
        (#[trigger] levels[i]).price,
        levels.last().price,
    ) by {
        if i < top {
            assert(outranks(side, levels[top].price, levels[i].price));
        }
    }
    lemma_ahead_none(side, levels, levels.last().price);
}

/// Price priority, level by level. After an incoming order of size `qty`
/// and limit `limit` has traded against a ladder, the queue at each crossing
/// price is the old queue filled with what the volume ahead of that price
/// left of `qty`; the queue at every other price is as it was.
pub proof fn lemma_sweep_by_level(
    side: Side,
    levels: Seq<LevelView>,
    limit: u32,
    qty: nat,
    price: u32,
)
    requires
        ladder_wf(side, levels),
    ensures
        crosses(side, price, limit) ==> queue_at(sweep(side, levels, limit, qty), price) == fill(
            queue_at(levels, price),
            excess(qty, ahead(side, levels, price)),
        ),
        !crosses(side, price, limit) ==> queue_at(sweep(side, levels, limit, qty), price)
            == queue_at(levels, price),
    decreases levels.len(),
{
    let old_queue: Seq<Order> = queue_at(levels, price);
    let share: nat = excess(qty, ahead(side, levels, price));
    if levels.len() == 0 {
        lemma_fill_empty(share);
    } else {
        let best: LevelView = levels.last();
        let rest: Seq<LevelView> = levels.drop_last();
        let top: int = levels.len() - 1;
        lemma_queue_at_best(side, levels, price);
        lemma_drop_best_wf(side, levels);
        assert(level_wf(side, levels[top]));
        assert(all_open(best.orders));
        lemma_volume_positive(best.orders);
        if has_level(levels, price) {
            let i: int = level_at(levels, price);
            assert(level_wf(side, levels[i]));
            assert(all_open(old_queue));
            if i < top {
                assert(outranks(side, levels[top].price, levels[i].price));
            }
        } else {
            lemma_fill_empty(share);
        }
        if qty == 0 {
            if has_level(levels, price) {
                lemma_fill_stop(old_queue, 0);
            }
        } else if !crosses(side, best.price, limit) {
            // No level crosses, so none rests at a crossing price.
            if crosses(side, price, limit) && has_level(levels, price) {
                let i: int = level_at(levels, price);
                if i < top {
                    assert(outranks(side, levels[top].price, levels[i].price));
                }
                assert(false);
            }
        } else if qty >= volume(best.orders) {
            let qty2: nat = (qty - volume(best.orders)) as nat;
            lemma_sweep_by_level(side, rest, limit, qty2, price);
            if price == best.price {
                lemma_ahead_of_best(side, levels);
                lemma_fill_volume(best.orders, qty);
                lemma_fill_empty(excess(qty2, ahead(side, rest, price)));
                assert(fill(best.orders, qty) =~= Seq::<Order>::empty());
            } else if has_level(levels, price) {
                assert(outranks(side, best.price, price));
            }
        } else {
            let shrunk: LevelView = LevelView { price: best.price, orders: fill(best.orders, qty) };
            let after: Seq<LevelView> = rest.push(shrunk);
            lemma_sweep_wf(side, levels, limit, qty);
            assert(after.drop_last() =~= rest);
            lemma_queue_at_best(side, after, price);
            if price == best.price {
                lemma_ahead_of_best(side, levels);
            } else if has_level(levels, price) {
                assert(outranks(side, best.price, price));
                lemma_fill_stop(old_queue, 0);
            }
        }
    }
}

/// A price that outranks another has less ahead of it: what is ahead of the
/// worse price includes all that rests at the better one.
pub proof fn lemma_ahead_grows(side: Side, levels: Seq<LevelView>, better: u32, worse: u32)
    requires
        ladder_wf(side, levels),
        outranks(side, better, worse),
    ensures
        ahead(side, levels, worse) >= ahead(side, levels, better) + volume(
            queue_at(levels, better),
        ),
    decreases levels.len(),
{
    if levels.len() > 0 {
        lemma_drop_best_wf(side, levels);
        lemma_queue_at_best(side, levels, better);
        lemma_ahead_grows(side, levels.drop_last(), better, worse);
    }
}

/// Price priority across levels. If an incoming order changes the queue at
/// one price, nothing is left at any price that trades before it: a buy
/// uses up the lowest ask level before it touches a higher one, a sell the
/// highest bid level before a lower one.
pub proof fn lemma_price_priority(
    side: Side,
    levels: Seq<LevelView>,
    limit: u32,
    qty: nat,
    better: u32,
    worse: u32,
)
    requires
        ladder_wf(side, levels),
        outranks(side, better, worse),
        queue_at(sweep(side, levels, limit, qty), worse) != queue_at(levels, worse),
    ensures
        queue_at(sweep(side, levels, limit, qty), better) == Seq::<Order>::empty(),
{
    lemma_sweep_by_level(side, levels, limit, qty, worse);
    lemma_sweep_by_level(side, levels, limit, qty, better);
    lemma_ahead_grows(side, levels, better, worse);
    let queue: Seq<Order> = queue_at(levels, worse);
    let share: nat = excess(qty, ahead(side, levels, worse));
    if share == 0 {
        if queue.len() == 0 {
            lemma_fill_empty(0);
        } else {
            assert(has_level(levels, worse));
            assert(level_wf(side, levels[level_at(levels, worse)]));
            lemma_fill_stop(queue, 0);
        }
        assert(false);
    }
    let front: Seq<Order> = queue_at(levels, better);
    if has_level(levels, better) {
        assert(level_wf(side, levels[level_at(levels, better)]));
        assert(all_open(front));
        lemma_fill_volume(front, excess(qty, ahead(side, levels, better)));
        assert(fill(front, excess(qty, ahead(side, levels, better))) =~= Seq::<Order>::empty());
    } else {
        lemma_fill_empty(excess(qty, ahead(side, levels, better)));
    }
}

/// Time priority within a price. A quantity `qty` traded against a queue
/// uses up a number `k` of orders from the front completely, takes what is
/// left of it from the order after them, and leaves every later order as it
/// was. So an order trades only when all that arrived before it are used up.
pub proof fn lemma_time_priority(q: Seq<Order>, qty: nat) -> (k: int)
    requires
        all_open(q),
    ensures
        k == filled_count(q, qty),
        0 <= k <= q.len(),
        volume(q.take(k)) <= qty,
        fill(q, qty).len() == q.len() - k,
        k < q.len() ==> qty - volume(q.take(k)) < q[k].size,
        k < q.len() ==> fill(q, qty)[0] == q[k].with_size(
            (q[k].size - (qty - volume(q.take(k)))) as u32,
        ),
        forall|j: int| k < j < q.len() ==> fill(q, qty)[j - k] == q[j],
{
    lemma_filled_count(q, qty);
    filled_count(q, qty) as int
}

/// Arrival order within a price. An order that comes to rest joins the back
/// of the queue at its price, and no other queue changes.
pub proof fn lemma_place_joins_back(side: Side, levels: Seq<LevelView>, order: Order, price: u32)
    requires
        ladder_wf(side, levels),
        order.side == side,
        order.size > 0,
    ensures
        ladder_wf(side, place(side, levels, order)),
        queue_at(place(side, levels, order), order.price) == queue_at(levels, order.price).push(
            order,
        ),
        price != order.price ==> queue_at(place(side, levels, order), price) == queue_at(
            levels,
            price,
        ),
{
    lemma_place_wf(side, levels, order);
    lemma_place_queue(side, levels, order, price);
    lemma_place_queue(side, levels, order, order.price);
}

/// Price-time priority of a book. When an order arrives, the queue at each
/// price of the other side that crosses its limit is filled, from the front,
/// with what the volume at better prices left of the order's size; no other
/// queue of that side changes. On the order's own side nothing changes but
/// the queue at its price, which the unmatched rest of the order joins at
/// the back.
pub proof fn lemma_match_by_price(book: BookView, order: Order, price: u32)
    requires
        book.wf(),
    ensures
        book.match_limit(order).wf(),
        crosses(order.side.spec_opposite(), price, order.price) ==> queue_at(
            book.match_limit(order).side(order.side.spec_opposite()),
            price,
        ) == fill(
            queue_at(book.side(order.side.spec_opposite()), price),
            excess(
                order.size as nat,
                ahead(order.side.spec_opposite(), book.side(order.side.spec_opposite()), price),
            ),
        ),
        !crosses(order.side.spec_opposite(), price, order.price) ==> queue_at(
            book.match_limit(order).side(order.side.spec_opposite()),
            price,
        ) == queue_at(book.side(order.side.spec_opposite()), price),
        price != order.price || book.matched(order) == order.size ==> queue_at(
            book.match_limit(order).side(order.side),
            price,
        ) == queue_at(book.side(order.side), price),
        book.matched(order) < order.size ==> queue_at(
            book.match_limit(order).side(order.side),
            order.price,
        ) == queue_at(book.side(order.side), order.price).push(
            order.with_size((order.size - book.matched(order)) as u32),
        ),
{
    let other: Side = order.side.spec_opposite();
    lemma_sweep_wf(other, book.side(other), order.price, order.size as nat);
    lemma_sweep_by_level(other, book.side(other), order.price, order.size as nat, price);
    let left: int = order.size - book.matched(order);
    if left > 0 {
        let rest: Order = order.with_size(left as u32);
        lemma_place_joins_back(order.side, book.side(order.side), rest, price);
    }
}

} // verus!
