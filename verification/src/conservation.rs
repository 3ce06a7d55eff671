//! Conservation of quantity when an order is matched.
//!
//! The functions here are proofs. What an incoming order trades leaves the
//! side it trades against, and what it does not trade comes to rest on its
//! own side: no quantity appears or is lost.

use crate::book::BookView;
use crate::ladder::{
    crosses, depth, has_level, ladder_wf, lemma_rank_bounds, level_at, level_wf, place, rank,
    sweep, traded, LevelView,
};
use crate::order::{Order, Side};
use crate::priority::lemma_drop_best_wf;
use crate::queue::{
    all_open, fill, lemma_fill_volume, lemma_volume_one, lemma_volume_split, volume,
};
use vstd::prelude::*;

verus! {

/// A level added at the best end adds its volume to the depth.
pub proof fn lemma_depth_push(levels: Seq<LevelView>, level: LevelView)
    ensures
        depth(levels.push(level)) == depth(levels) + volume(level.orders),
{
    assert(levels.push(level).drop_last() =~= levels);
}

/// A level added anywhere adds its volume to the depth.
pub proof fn lemma_depth_insert(levels: Seq<LevelView>, i: int, level: LevelView)
    requires
        0 <= i <= levels.len(),
    ensures
        depth(levels.insert(i, level)) == depth(levels) + volume(level.orders),
    decreases levels.len(),
{
    let after: Seq<LevelView> = levels.insert(i, level);
    if i == levels.len() {
        assert(after =~= levels.push(level));
        lemma_depth_push(levels, level);
    } else {
        assert(after.drop_last() =~= levels.drop_last().insert(i, level));
        assert(after.last() == levels.last());
        lemma_depth_insert(levels.drop_last(), i, level);
    }
}

/// Replacing a level changes the depth by the difference of the volumes.
pub proof fn lemma_depth_update(levels: Seq<LevelView>, i: int, level: LevelView)
    requires
        0 <= i < levels.len(),
    ensures
        depth(levels.update(i, level)) == depth(levels) - volume(levels[i].orders) + volume(
            level.orders,
        ),
    decreases levels.len(),
{
    let after: Seq<LevelView> = levels.update(i, level);
    if i == levels.len() - 1 {
        assert(after.drop_last() =~= levels.drop_last());
    } else {
        assert(after.drop_last() =~= levels.drop_last().update(i, level));
        assert(after.last() == levels.last());
        lemma_depth_update(levels.drop_last(), i, level);
    }
}

/// What an incoming order trades is what leaves the ladder it trades
/// against, and is no more than the order's size.
pub proof fn lemma_sweep_conserves(side: Side, levels: Seq<LevelView>, limit: u32, qty: nat)
    requires
        ladder_wf(side, levels),
    ensures
        traded(side, levels, limit, qty) <= qty,
        depth(sweep(side, levels, limit, qty)) + traded(side, levels, limit, qty) == depth(levels),
    decreases levels.len(),
{
    if levels.len() == 0 || qty == 0 || !crosses(side, levels.last().price, limit) {
    } else {
        let best: LevelView = levels.last();
        let rest: Seq<LevelView> = levels.drop_last();
        assert(level_wf(side, levels[levels.len() - 1]));
        assert(all_open(best.orders));
        if qty >= volume(best.orders) {
            lemma_drop_best_wf(side, levels);
            lemma_sweep_conserves(side, rest, limit, (qty - volume(best.orders)) as nat);
        } else {
            lemma_fill_volume(best.orders, qty);
            lemma_depth_push(
                rest,
                LevelView { price: best.price, orders: fill(best.orders, qty) },
            );
        }
    }
}

/// An order that comes to rest adds its size to the depth of its side.
pub proof fn lemma_place_adds(side: Side, levels: Seq<LevelView>, order: Order)
    ensures
        depth(place(side, levels, order)) == depth(levels) + order.size,
{
    lemma_volume_one(order);
    if has_level(levels, order.price) {
        let i: int = level_at(levels, order.price);
        let queue: Seq<Order> = levels[i].orders;
        assert(queue.push(order) =~= queue + seq![order]);
        lemma_volume_split(queue, seq![order]);
        lemma_depth_update(
            levels,
            i,
            LevelView { price: order.price, orders: queue.push(order) },
        );
    } else {
        lemma_rank_bounds(side, levels, order.price);
        lemma_depth_insert(
            levels,
            rank(side, levels, order.price),
            LevelView { price: order.price, orders: seq![order] },
        );
    }
}

/// Conservation for one matching event. The quantity that an incoming order
/// trades and the quantity of it that comes to rest add up to its size; the
/// side it trades against loses exactly what was traded; its own side gains
/// exactly what came to rest.
pub proof fn lemma_match_conserves(book: BookView, order: Order)
    requires
        book.wf(),
    ensures
        book.matched(order) <= order.size,
        depth(book.match_limit(order).side(order.side.spec_opposite())) + book.matched(order)
            == depth(book.side(order.side.spec_opposite())),
        depth(book.match_limit(order).side(order.side)) == depth(book.side(order.side)) + (
        order.size - book.matched(order)),
{
    let other: Side = order.side.spec_opposite();
    lemma_sweep_conserves(other, book.side(other), order.price, order.size as nat);
    let left: int = order.size - book.matched(order);
    if left > 0 {
        lemma_place_adds(order.side, book.side(order.side), order.with_size(left as u32));
    }
}

} // verus!
