//! One side of an order book: its price levels, ordered by priority.
//!
//! A ladder is modelled as a `Seq<LevelView>` that runs from the level with
//! the least priority to the level with the most: the last level is the best
//! price of the side. On the buy side a higher price has priority, on the sell
//! side a lower one. A level exists only while orders rest at its price.

use crate::order::{Order, Side};
use crate::queue::{
    all_open, fill, fill_front, filled_count, holds, ids, lemma_fill_volume, lemma_filled_count,
    lemma_volume_positive, reduce, reduce_queue, volume,
};
use std::collections::HashMap;
use std::collections::VecDeque;
use vstd::prelude::*;

verus! {

/// The orders resting at one price, oldest first.
pub ghost struct LevelView {
    pub price: u32,
    pub orders: Seq<Order>,
}

/// Whether, among orders resting on `side`, price `a` trades before price `b`.
pub open spec fn outranks(side: Side, a: u32, b: u32) -> bool {
    match side {
        Side::Buy => a > b,
        Side::Sell => a < b,
    }
}

/// Whether an order resting on `side` at `price` can trade with an incoming
/// order of the other side whose limit is `limit`.
pub open spec fn crosses(side: Side, price: u32, limit: u32) -> bool {
    match side {
        Side::Buy => price >= limit,
        Side::Sell => price <= limit,
    }
}

/// A level of `side` is well formed: it is not empty, and each of its orders
/// is open, on that side and at the level's price.
pub open spec fn level_wf(side: Side, level: LevelView) -> bool {
    &&& level.orders.len() > 0
    &&& forall|i: int|
        0 <= i < level.orders.len() ==> {
            &&& (#[trigger] level.orders[i]).size > 0
            &&& level.orders[i].side == side
            &&& level.orders[i].price == level.price
        }
}

/// A ladder of `side` is well formed: every level is, and priority strictly
/// grows from each level to the next.
pub open spec fn ladder_wf(side: Side, levels: Seq<LevelView>) -> bool {
    &&& forall|i: int| 0 <= i < levels.len() ==> level_wf(side, #[trigger] levels[i])
    &&& forall|i: int, j: int|
        0 <= i < j < levels.len() ==> outranks(
            side,
            (#[trigger] levels[j]).price,
            (#[trigger] levels[i]).price,
        )
}

/// The total open quantity resting on a ladder.
pub open spec fn depth(levels: Seq<LevelView>) -> nat
    decreases levels.len(),
{
    if levels.len() == 0 {
        0
    } else {
        depth(levels.drop_last()) + volume(levels.last().orders)
    }
}

/// The open quantity that an incoming order with limit `limit` can reach: the
/// volume of the levels that cross it.
pub open spec fn reach(side: Side, levels: Seq<LevelView>, limit: u32) -> nat
    decreases levels.len(),
{
    if levels.len() == 0 || !crosses(side, levels.last().price, limit) {
        0
    } else {
        reach(side, levels.drop_last(), limit) + volume(levels.last().orders)
    }
}

/// The quantity that an incoming order of size `qty` and limit `limit` trades
/// against the ladder.
pub open spec fn traded(side: Side, levels: Seq<LevelView>, limit: u32, qty: nat) -> nat {
    if qty <= reach(side, levels, limit) {
        qty
    } else {
        reach(side, levels, limit)
    }
}

/// The ladder after an incoming order of size `qty` and limit `limit` has
/// traded against it. The best level trades first; a level that is used up
/// leaves the ladder, and the next best follows while it crosses and
/// quantity is left.
pub open spec fn sweep(side: Side, levels: Seq<LevelView>, limit: u32, qty: nat) -> Seq<
    LevelView,
>
    decreases levels.len(),
{
    if levels.len() == 0 || qty == 0 || !crosses(side, levels.last().price, limit) {
        levels
    } else {
        let best: LevelView = levels.last();
        if qty >= volume(best.orders) {
            sweep(side, levels.drop_last(), limit, (qty - volume(best.orders)) as nat)
        } else {
            levels.drop_last().push(
                LevelView { price: best.price, orders: fill(best.orders, qty) },
            )
        }
    }
}

/// The ids of the resting orders that such an incoming order uses up
/// completely.
pub open spec fn swept_ids(side: Side, levels: Seq<LevelView>, limit: u32, qty: nat) -> Set<u64>
    decreases levels.len(),
{
    if levels.len() == 0 || qty == 0 || !crosses(side, levels.last().price, limit) {
        Set::empty()
    } else {
        let best: LevelView = levels.last();
        if qty >= volume(best.orders) {
            ids(best.orders).union(
                swept_ids(side, levels.drop_last(), limit, (qty - volume(best.orders)) as nat),
            )
        } else {
            ids(best.orders.take(filled_count(best.orders, qty) as int))
        }
    }
}

/// Whether the ladder has a level at `price`.
pub open spec fn has_level(levels: Seq<LevelView>, price: u32) -> bool {
    exists|i: int| 0 <= i < levels.len() && (#[trigger] levels[i]).price == price
}

/// The position of the level at `price`, where the ladder has one.
pub open spec fn level_at(levels: Seq<LevelView>, price: u32) -> int {
    choose|i: int| 0 <= i < levels.len() && (#[trigger] levels[i]).price == price
}

/// The orders resting at `price`, oldest first; empty where the ladder has
/// no such level.
pub open spec fn queue_at(levels: Seq<LevelView>, price: u32) -> Seq<Order> {
    if has_level(levels, price) {
        levels[level_at(levels, price)].orders
    } else {
        Seq::empty()
    }
}

/// The number of levels that a level at `price` would outrank: the position
/// at which such a level belongs.
pub open spec fn rank(side: Side, levels: Seq<LevelView>, price: u32) -> int
    decreases levels.len(),
{
    if levels.len() == 0 || !outranks(side, price, levels[0].price) {
        0
    } else {
        1 + rank(side, levels.drop_first(), price)
    }
}

/// The ladder after `order` has come to rest on it: at the back of the queue
/// at its price, or alone on a new level where no order rested at that price.
pub open spec fn place(side: Side, levels: Seq<LevelView>, order: Order) -> Seq<LevelView> {
    if has_level(levels, order.price) {
        let i: int = level_at(levels, order.price);
        levels.update(i, LevelView { price: order.price, orders: levels[i].orders.push(order) })
    } else {
        levels.insert(
            rank(side, levels, order.price),
            LevelView { price: order.price, orders: seq![order] },
        )
    }
}

/// The ladder after `size` units are cancelled from the orders carrying `id`
/// at `price`. A level that runs empty leaves the ladder.
pub open spec fn withdraw(levels: Seq<LevelView>, price: u32, id: u64, size: u32) -> Seq<
    LevelView,
> {
    if has_level(levels, price) {
        let i: int = level_at(levels, price);
        let rest: Seq<Order> = reduce(levels[i].orders, id, size);
        if rest.len() == 0 {
            levels.remove(i)
        } else {
            levels.update(i, LevelView { price: price, orders: rest })
        }
    } else {
        levels
    }
}

/// In a well-formed ladder a price names at most one level.
pub proof fn lemma_level_unique(side: Side, levels: Seq<LevelView>, i: int)
    requires
        ladder_wf(side, levels),
        0 <= i < levels.len(),
    ensures
        has_level(levels, levels[i].price),
        level_at(levels, levels[i].price) == i,
        queue_at(levels, levels[i].price) == levels[i].orders,
{
    let j: int = level_at(levels, levels[i].price);
    if j < i {
        assert(outranks(side, levels[i].price, levels[j].price));
    } else if i < j {
        assert(outranks(side, levels[j].price, levels[i].price));
    }
}

/// The position that a search has narrowed down is the rank.
pub proof fn lemma_rank_is(side: Side, levels: Seq<LevelView>, price: u32, pos: int)
    requires
        0 <= pos <= levels.len(),
        forall|i: int| 0 <= i < pos ==> outranks(side, price, (#[trigger] levels[i]).price),
        pos < levels.len() ==> !outranks(side, price, levels[pos].price),
    ensures
        rank(side, levels, price) == pos,
    decreases levels.len(),
{
    if pos > 0 {
        assert(outranks(side, price, levels[0].price));
        let rest: Seq<LevelView> = levels.drop_first();
        assert forall|i: int| 0 <= i < pos - 1 implies outranks(
            side,
            price,
            (#[trigger] rest[i]).price,
        ) by {
            assert(rest[i] == levels[i + 1]);
        }
        lemma_rank_is(side, rest, price, pos - 1);
    }
}

/// Cancelling from a queue keeps every remaining order open, on its side and
/// at its price.
pub proof fn lemma_reduce_keeps(side: Side, price: u32, q: Seq<Order>, id: u64, size: u32)
    requires
        forall|i: int|
            0 <= i < q.len() ==> (#[trigger] q[i]).size > 0 && q[i].side == side && q[i].price
                == price,
    ensures
        forall|i: int|
            0 <= i < reduce(q, id, size).len() ==> (#[trigger] reduce(q, id, size)[i]).size > 0
                && reduce(q, id, size)[i].side == side && reduce(q, id, size)[i].price == price,
    decreases q.len(),
{
    if q.len() > 0 {
        let front: Seq<Order> = q.drop_last();
        assert forall|i: int| 0 <= i < front.len() implies (#[trigger] front[i]).size > 0
            && front[i].side == side && front[i].price == price by {
            assert(front[i] == q[i]);
        }
        lemma_reduce_keeps(side, price, front, id, size);
        assert(q.last() == q[q.len() - 1]);
    }
}

/// A new level, put where its price ranks, keeps the ladder well formed.
pub proof fn lemma_place_new_wf(side: Side, levels: Seq<LevelView>, order: Order)
    requires
        ladder_wf(side, levels),
        !has_level(levels, order.price),
        order.side == side,
        order.size > 0,
    ensures
        ladder_wf(side, place(side, levels, order)),
    decreases levels.len(),
{
    let pos: int = rank(side, levels, order.price);
    lemma_rank_bounds(side, levels, order.price);
    let fresh: LevelView = LevelView { price: order.price, orders: seq![order] };
    let after: Seq<LevelView> = levels.insert(pos, fresh);
    assert(level_wf(side, fresh));
    assert forall|i: int| 0 <= i < after.len() implies level_wf(side, #[trigger] after[i]) by {
        if i < pos {
            assert(after[i] == levels[i]);
        } else if i > pos {
            assert(after[i] == levels[i - 1]);
        }
    }
    assert forall|i: int, j: int| 0 <= i < j < after.len() implies outranks(
        side,
        (#[trigger] after[j]).price,
        (#[trigger] after[i]).price,
    ) by {
        let a: int = if i < pos { i } else { i - 1 };
        let b: int = if j < pos { j } else { j - 1 };
        if i != pos && j != pos {
            assert(after[i] == levels[a]);
            assert(after[j] == levels[b]);
        } else if i == pos {
            assert(after[j] == levels[b]);
            assert(levels[b].price != order.price);
            if b > pos {
                assert(outranks(side, levels[b].price, levels[pos].price));
            }
        } else {
            assert(after[i] == levels[a]);
        }
    }
}

/// What the rank says: a level at `price` would outrank every level before
/// that position, and not the level at it.
pub proof fn lemma_rank_bounds(side: Side, levels: Seq<LevelView>, price: u32)
    ensures
        0 <= rank(side, levels, price) <= levels.len(),
        forall|i: int|
            0 <= i < rank(side, levels, price) ==> outranks(
                side,
                price,
                (#[trigger] levels[i]).price,
            ),
        rank(side, levels, price) < levels.len() ==> !outranks(
            side,
            price,
            levels[rank(side, levels, price)].price,
        ),
    decreases levels.len(),
{
    if levels.len() == 0 || !outranks(side, price, levels[0].price) {
    } else {
        let rest: Seq<LevelView> = levels.drop_first();
        lemma_rank_bounds(side, rest, price);
        assert forall|i: int| 0 <= i < rank(side, levels, price) implies outranks(
            side,
            price,
            (#[trigger] levels[i]).price,
        ) by {
            if i > 0 {
                assert(levels[i] == rest[i - 1]);
            }
        }
    }
}

/// An order that comes to rest keeps the ladder well formed.
pub proof fn lemma_place_wf(side: Side, levels: Seq<LevelView>, order: Order)
    requires
        ladder_wf(side, levels),
        order.side == side,
        order.size > 0,
    ensures
        ladder_wf(side, place(side, levels, order)),
{
    if has_level(levels, order.price) {
        let i: int = level_at(levels, order.price);
        let grown: LevelView = LevelView {
            price: order.price,
            orders: levels[i].orders.push(order),
        };
        let after: Seq<LevelView> = levels.update(i, grown);
        assert(level_wf(side, levels[i]));
        assert(level_wf(side, grown)) by {
            assert forall|k: int| 0 <= k < grown.orders.len() implies {
                &&& (#[trigger] grown.orders[k]).size > 0
                &&& grown.orders[k].side == side
                &&& grown.orders[k].price == grown.price
            } by {
                if k < levels[i].orders.len() {
                    assert(grown.orders[k] == levels[i].orders[k]);
                }
            }
        }
        assert forall|j: int| 0 <= j < after.len() implies level_wf(side, #[trigger] after[j]) by {
            if j != i {
                assert(after[j] == levels[j]);
            }
        }
        assert forall|a: int, b: int| 0 <= a < b < after.len() implies outranks(
            side,
            (#[trigger] after[b]).price,
            (#[trigger] after[a]).price,
        ) by {
            assert(after[a].price == levels[a].price);
            assert(after[b].price == levels[b].price);
        }
    } else {
        lemma_place_new_wf(side, levels, order);
    }
}

/// What resting an order does to the queue at each price: the order joins
/// the back of the queue at its own price, and no other queue changes.
pub proof fn lemma_place_queue(side: Side, levels: Seq<LevelView>, order: Order, price: u32)
    requires
        ladder_wf(side, levels),
        order.side == side,
        order.size > 0,
    ensures
        price == order.price ==> queue_at(place(side, levels, order), price) == queue_at(
            levels,
            price,
        ).push(order),
        price != order.price ==> queue_at(place(side, levels, order), price) == queue_at(
            levels,
            price,
        ),
        has_level(place(side, levels, order), price) == (has_level(levels, price) || price
            == order.price),
{
    let after: Seq<LevelView> = place(side, levels, order);
    lemma_place_wf(side, levels, order);
    if has_level(levels, order.price) {
        let i: int = level_at(levels, order.price);
        assert(after[i].price == order.price);
        lemma_level_unique(side, after, i);
        lemma_level_unique(side, levels, i);
        if price != order.price {
            if has_level(levels, price) {
                let j: int = level_at(levels, price);
                assert(after[j] == levels[j]);
                lemma_level_unique(side, after, j);
                lemma_level_unique(side, levels, j);
            }
            if has_level(after, price) {
                let j: int = level_at(after, price);
                assert(after[j] == levels[j]);
                assert(levels[j].price == price);
            }
        }
    } else {
        let pos: int = rank(side, levels, order.price);
        lemma_rank_bounds(side, levels, order.price);
        assert(after[pos].price == order.price);
        lemma_level_unique(side, after, pos);
        assert(seq![order] =~= Seq::<Order>::empty().push(order));
        if price != order.price {
            if has_level(levels, price) {
                let j: int = level_at(levels, price);
                let j2: int = if j < pos { j } else { j + 1 };
                assert(after[j2] == levels[j]);
                lemma_level_unique(side, after, j2);
                lemma_level_unique(side, levels, j);
            }
            if has_level(after, price) {
                let j: int = level_at(after, price);
                let j0: int = if j < pos { j } else { j - 1 };
                assert(after[j] == levels[j0]);
                assert(levels[j0].price == price);
            }
        }
    }
}

/// Filling a well-formed level with less than its volume leaves a
/// well-formed level.
pub proof fn lemma_fill_level_wf(side: Side, level: LevelView, qty: nat)
    requires
        level_wf(side, level),
        qty < volume(level.orders),
    ensures
        level_wf(side, LevelView { price: level.price, orders: fill(level.orders, qty) }),
{
    let q: Seq<Order> = level.orders;
    assert(all_open(q));
    lemma_filled_count(q, qty);
    let k: int = filled_count(q, qty) as int;
    let after: Seq<Order> = fill(q, qty);
    assert forall|i: int| 0 <= i < after.len() implies {
        &&& (#[trigger] after[i]).size > 0
        &&& after[i].side == side
        &&& after[i].price == level.price
    } by {
        assert(q[k + i].size > 0);
    }
}

/// A price level: the queue of orders resting at one price.
struct Level {
    price: u32,
    queue: VecDeque<Order>,
}

impl View for Level {
    type V = LevelView;

    closed spec fn view(&self) -> LevelView {
        LevelView { price: self.price, orders: self.queue@ }
    }
}

/// The resting orders of one side of a book, by price level.
pub struct Ladder {
    side: Side,
    levels: Vec<Level>,
}

impl View for Ladder {
    type V = Seq<LevelView>;

    closed spec fn view(&self) -> Seq<LevelView> {
        Seq::new(self.levels@.len(), |i: int| self.levels@[i]@)
    }
}

impl Ladder {
    /// The side whose orders rest on this ladder.
    pub closed spec fn side(&self) -> Side {
        self.side
    }

    /// The ladder's invariant.
    pub open spec fn wf(&self) -> bool {
        ladder_wf(self.side(), self@)
    }

    /// An empty ladder for `side`.
    pub fn new(side: Side) -> (ladder: Ladder)
        ensures
            ladder.wf(),
            ladder.side() == side,
            ladder@ == Seq::<LevelView>::empty(),
    {
        let ladder: Ladder = Ladder { side, levels: Vec::new() };
        assert(ladder@ =~= Seq::<LevelView>::empty());
        ladder
    }

    /// Whether the best level crosses an incoming limit.
    fn best_crosses(&self, limit: u32) -> (yes: bool)
        ensures
            yes == (self@.len() > 0 && crosses(self.side(), self@.last().price, limit)),
    {
        let n: usize = self.levels.len();
        if n == 0 {
            false
        } else {
            let price: u32 = self.levels[n - 1].price;
            match self.side {
                Side::Buy => price >= limit,
                Side::Sell => price <= limit,
            }
        }
    }

    /// Trades an incoming quantity `qty` with limit `limit` against the
    /// ladder, best price first and oldest order first within a price.
    /// Orders that are used up leave the ladder and `index`; levels that run
    /// empty leave the ladder. Returns the quantity that found no match.
    pub(crate) fn sweep(
        &mut self,
        index: &mut HashMap<u64, (Side, u32)>,
        limit: u32,
        qty: u32,
    ) -> (left: u32)
        requires
            old(self).wf(),
        ensures
            final(self).wf(),
            final(self).side() == old(self).side(),
            final(self)@ == sweep(old(self).side(), old(self)@, limit, qty as nat),
            final(index)@ == old(index)@.remove_keys(
                swept_ids(old(self).side(), old(self)@, limit, qty as nat),
            ),
            left == qty - traded(old(self).side(), old(self)@, limit, qty as nat),
    {
        let ghost side: Side = self.side;
        let ghost l0: Seq<LevelView> = self@;
        let ghost index0: Map<u64, (Side, u32)> = index@;
        let mut left: u32 = qty;
        proof {
            assert(index@.remove_keys(swept_ids(side, self@, limit, left as nat))
                =~= index0.remove_keys(swept_ids(side, l0, limit, qty as nat)));
        }
        while left > 0 && self.best_crosses(limit)
            invariant
                self.wf(),
                self.side() == side,
                sweep(side, l0, limit, qty as nat) == sweep(side, self@, limit, left as nat),
                index@.remove_keys(swept_ids(side, self@, limit, left as nat))
                    == index0.remove_keys(swept_ids(side, l0, limit, qty as nat)),
                qty - left == reach(side, l0, limit) - reach(side, self@, limit),
            decreases left,
        {
            let ghost cur: Seq<LevelView> = self@;
            let ghost index1: Map<u64, (Side, u32)> = index@;
            let mut level: Level = self.levels.pop().unwrap();
            let ghost best: LevelView = level@;
            proof {
                assert(best == cur.last());
                assert(self@ =~= cur.drop_last());
                assert(level_wf(side, best));
                assert(all_open(best.orders));
                lemma_volume_positive(best.orders);
                lemma_filled_count(best.orders, left as nat);
            }
            let ghost before: u32 = left;
            left = fill_front(&mut level.queue, index, left);
            if level.queue.len() > 0 {
                proof {
                    lemma_fill_level_wf(side, best, before as nat);
                }
                self.levels.push(level);
                proof {
                    let shrunk: LevelView = LevelView {
                        price: best.price,
                        orders: fill(best.orders, before as nat),
                    };
                    assert(self@ =~= cur.drop_last().push(shrunk));
                    assert(self@.drop_last() =~= cur.drop_last());
                    assert(swept_ids(side, self@, limit, 0) =~= Set::<u64>::empty());
                    assert(index@.remove_keys(Set::<u64>::empty()) =~= index@);
                    lemma_fill_volume(best.orders, before as nat);
                }
            } else {
                proof {
                    assert(best.orders.take(best.orders.len() as int) =~= best.orders);
                    assert(index@.remove_keys(swept_ids(side, self@, limit, left as nat))
                        =~= index1.remove_keys(swept_ids(side, cur, limit, before as nat)));
                }
            }
        }
        proof {
            if left == 0 {
                assert(swept_ids(side, self@, limit, 0) =~= Set::<u64>::empty());
            } else {
                assert(swept_ids(side, self@, limit, left as nat) =~= Set::<u64>::empty());
            }
            assert(index@.remove_keys(Set::<u64>::empty()) =~= index@);
        }
        left
    }

    /// Finds the level at `price` by binary search. Returns its position and
    /// `true`, or, where the ladder has no such level, the position at which
    /// one belongs and `false`.
    fn locate(&self, price: u32) -> (found: (usize, bool))
        requires
            self.wf(),
        ensures
            found.0 <= self@.len(),
            found.1 == has_level(self@, price),
            found.1 ==> found.0 == level_at(self@, price),
            !found.1 ==> found.0 == rank(self.side(), self@, price),
    {
        let mut lo: usize = 0;
        let mut hi: usize = self.levels.len();
        while lo < hi
            invariant
                self.wf(),
                0 <= lo <= hi <= self@.len(),
                self@.len() == self.levels@.len(),
                forall|i: int|
                    0 <= i < lo ==> outranks(self.side(), price, (#[trigger] self@[i]).price),
                forall|i: int|
                    hi <= i < self@.len() ==> !outranks(
                        self.side(),
                        price,
                        (#[trigger] self@[i]).price,
                    ),
            decreases hi - lo,
        {
            let mid: usize = lo + (hi - lo) / 2;
            let at: u32 = self.levels[mid].price;
            let below: bool = match self.side {
                Side::Buy => price > at,
                Side::Sell => price < at,
            };
            proof {
                assert(self@[mid as int].price == at);
                assert(below == outranks(self.side(), price, at));
            }
            if below {
                proof {
                    assert forall|i: int| 0 <= i < mid + 1 implies outranks(
                        self.side(),
                        price,
                        (#[trigger] self@[i]).price,
                    ) by {
                        if i < mid {
                            assert(outranks(self.side(), self@[mid as int].price, self@[i].price));
                        }
                    }
                }
                lo = mid + 1;
            } else {
                proof {
                    assert forall|i: int| mid <= i < self@.len() implies !outranks(
                        self.side(),
                        price,
                        (#[trigger] self@[i]).price,
                    ) by {
                        if mid < i {
                            assert(outranks(self.side(), self@[i].price, self@[mid as int].price));
                        }
                    }
                }
                hi = mid;
            }
        }
        let hit: bool = lo < self.levels.len() && self.levels[lo].price == price;
        proof {
            if hit {
                assert(self@[lo as int].price == price);
                lemma_level_unique(self.side(), self@, lo as int);
            } else {
                lemma_rank_is(self.side(), self@, price, lo as int);
                if has_level(self@, price) {
                    let i: int = level_at(self@, price);
                    if i < lo {
                        assert(outranks(self.side(), price, self@[i].price));
                    } else {
                        assert(!outranks(self.side(), price, self@[i].price));
                        assert(i != lo);
                        assert(outranks(self.side(), self@[i].price, self@[lo as int].price));
                        assert(!outranks(self.side(), price, self@[lo as int].price));
                    }
                    assert(false);
                }
            }
        }
        (lo, hit)
    }

    /// Rests `order` on the ladder, behind every order already at its price.
    pub(crate) fn place(&mut self, order: Order)
        requires
            old(self).wf(),
            order.side == old(self).side(),
            order.size > 0,
        ensures
            final(self).wf(),
            final(self).side() == old(self).side(),
            final(self)@ == place(old(self).side(), old(self)@, order),
    {
        let ghost l0: Seq<LevelView> = self@;
        let (pos, found) = self.locate(order.price);
        if found {
            self.levels[pos].queue.push_back(order);
            proof {
                let grown: LevelView = LevelView {
                    price: order.price,
                    orders: l0[pos as int].orders.push(order),
                };
                assert(l0[pos as int].price == order.price);
                assert(self@ =~= l0.update(pos as int, grown));
                assert(level_wf(self.side(), l0[pos as int]));
                assert(level_wf(self.side(), grown));
            }
        } else {
            let mut queue: VecDeque<Order> = VecDeque::new();
            queue.push_back(order);
            let level: Level = Level { price: order.price, queue };
            self.levels.insert(pos, level);
            proof {
                let fresh: LevelView = LevelView { price: order.price, orders: seq![order] };
                assert(level@ == fresh);
                assert(self@ =~= l0.insert(pos as int, fresh));
                lemma_place_new_wf(self.side(), l0, order);
            }
        }
    }

    /// Cancels `size` units from the orders carrying `id` at `price`. Returns
    /// whether an order with that id still rests at that price.
    pub(crate) fn withdraw(&mut self, price: u32, id: u64, size: u32) -> (kept: bool)
        requires
            old(self).wf(),
        ensures
            final(self).wf(),
            final(self).side() == old(self).side(),
            final(self)@ == withdraw(old(self)@, price, id, size),
            kept == holds(queue_at(final(self)@, price), id),
    {
        let ghost l0: Seq<LevelView> = self@;
        let (pos, found) = self.locate(price);
        if !found {
            return false;
        }
        let mut level: Level = self.levels.remove(pos);
        proof {
            assert(level@ == l0[pos as int]);
            assert(self@ =~= l0.remove(pos as int));
            assert(level_wf(self.side(), l0[pos as int]));
            lemma_reduce_keeps(self.side(), price, level@.orders, id, size);
        }
        let kept: bool = reduce_queue(&mut level.queue, id, size);
        if level.queue.len() > 0 {
            self.levels.insert(pos, level);
            proof {
                let rest: LevelView = LevelView {
                    price: price,
                    orders: reduce(l0[pos as int].orders, id, size),
                };
                assert(self@ =~= l0.update(pos as int, rest));
                assert(level_wf(self.side(), rest));
                lemma_level_unique(self.side(), self@, pos as int);
            }
        } else {
            proof {
                assert(!has_level(self@, price)) by {
                    if has_level(self@, price) {
                        let i: int = level_at(self@, price);
                        if i < pos {
                            assert(self@[i] == l0[i]);
                            lemma_level_unique(self.side(), l0, i);
                        } else {
                            assert(self@[i] == l0[i + 1]);
                            lemma_level_unique(self.side(), l0, i + 1);
                        }
                    }
                }
            }
        }
        kept
    }

    /// The best price of the side, if any order rests on it.
    pub fn best_price(&self) -> (best: Option<u32>)
        ensures
            best == (if self@.len() == 0 {
                None
            } else {
                Some(self@.last().price)
            }),
    {
        let n: usize = self.levels.len();
        if n == 0 {
            None
        } else {
            Some(self.levels[n - 1].price)
        }
    }

    /// The number of price levels.
    pub fn level_count(&self) -> (n: usize)
        ensures
            n == self@.len(),
    {
        self.levels.len()
    }

    /// The orders resting at `price`, oldest first.
    pub fn orders_at(&self, price: u32) -> (orders: Vec<Order>)
        requires
            self.wf(),
        ensures
            orders@ == queue_at(self@, price),
    {
        let mut orders: Vec<Order> = Vec::new();
        let (pos, found) = self.locate(price);
        if found {
            let level: &Level = &self.levels[pos];
            let n: usize = level.queue.len();
            let mut i: usize = 0;
            while i < n
                invariant
                    i <= n,
                    n == level.queue@.len(),
                    orders@ == level.queue@.take(i as int),
                decreases n - i,
            {
                orders.push(level.queue[i]);
                proof {
                    assert(orders@ =~= level.queue@.take(i + 1));
                }
                i = i + 1;
            }
            proof {
                assert(level.queue@.take(n as int) =~= level.queue@);
                assert(level@ == self@[pos as int]);
            }
        } else {
            proof {
                assert(orders@ =~= Seq::<Order>::empty());
            }
        }
        orders
    }
}

} // verus!
