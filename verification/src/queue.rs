//! The FIFO queue of orders resting at one price.
//!
//! A queue is modelled as a `Seq<Order>` in arrival order: the front order
//! has waited longest and trades first.

use crate::order::{Order, Side};
use std::collections::HashMap;
use std::collections::VecDeque;
use vstd::prelude::*;

verus! {

/// Every order of the queue has an open quantity.
pub open spec fn all_open(q: Seq<Order>) -> bool {
    forall|i: int| 0 <= i < q.len() ==> (#[trigger] q[i]).size > 0
}

/// The total open quantity of a queue.
pub open spec fn volume(q: Seq<Order>) -> nat
    decreases q.len(),
{
    if q.len() == 0 {
        0
    } else {
        q[0].size as nat + volume(q.drop_first())
    }
}

/// The ids of the orders in a queue.
pub open spec fn ids(q: Seq<Order>) -> Set<u64> {
    Set::new(|id: u64| exists|i: int| 0 <= i < q.len() && (#[trigger] q[i]).id == id)
}

/// Whether some order of the queue carries `id`.
pub open spec fn holds(q: Seq<Order>, id: u64) -> bool {
    exists|i: int| 0 <= i < q.len() && (#[trigger] q[i]).id == id
}

/// How many orders at the front of `q` an incoming quantity `qty` uses up
/// completely.
pub open spec fn filled_count(q: Seq<Order>, qty: nat) -> nat
    decreases q.len(),
{
    if q.len() == 0 || qty < q[0].size {
        0
    } else {
        1 + filled_count(q.drop_first(), (qty - q[0].size) as nat)
    }
}

/// The queue after an incoming quantity `qty` has traded against it: the
/// orders that `qty` uses up completely leave from the front, the next one
/// gives what is left of `qty`, and all behind it are untouched.
pub open spec fn fill(q: Seq<Order>, qty: nat) -> Seq<Order> {
    let k: int = filled_count(q, qty) as int;
    let left: int = qty - volume(q.take(k));
    if k < q.len() && left > 0 {
        q.skip(k).update(0, q[k].with_size((q[k].size - left) as u32))
    } else {
        q.skip(k)
    }
}

/// The queue after `size` units are cancelled from every order carrying
/// `id`: such an order leaves if `size` covers its open quantity, and
/// otherwise stays in place with the rest. All other orders are untouched.
pub open spec fn reduce(q: Seq<Order>, id: u64, size: u32) -> Seq<Order>
    decreases q.len(),
{
    if q.len() == 0 {
        q
    } else {
        let head: Seq<Order> = reduce(q.drop_last(), id, size);
        let o: Order = q.last();
        if o.id != id {
            head.push(o)
        } else if size >= o.size {
            head
        } else {
            head.push(o.with_size((o.size - size) as u32))
        }
    }
}

/// The volume of two queues joined is the sum of their volumes.
pub proof fn lemma_volume_split(a: Seq<Order>, b: Seq<Order>)
    ensures
        volume(a + b) == volume(a) + volume(b),
    decreases a.len(),
{
    if a.len() == 0 {
        assert(a + b =~= b);
    } else {
        assert((a + b).drop_first() =~= a.drop_first() + b);
        lemma_volume_split(a.drop_first(), b);
    }
}

/// The volume of a queue of one order is that order's size.
pub proof fn lemma_volume_one(o: Order)
    ensures
        volume(seq![o]) == o.size,
{
    assert(seq![o].drop_first() =~= Seq::<Order>::empty());
    assert(volume(seq![o].drop_first()) == 0);
}

/// Changing the size of one order changes the volume by the same amount.
pub proof fn lemma_volume_update(q: Seq<Order>, i: int, size: u32)
    requires
        0 <= i < q.len(),
    ensures
        volume(q.update(i, q[i].with_size(size))) == volume(q) - q[i].size + size,
    decreases q.len(),
{
    let q2: Seq<Order> = q.update(i, q[i].with_size(size));
    if i == 0 {
        assert(q2.drop_first() =~= q.drop_first());
    } else {
        assert(q2.drop_first() =~= q.drop_first().update(i - 1, q[i].with_size(size)));
        lemma_volume_update(q.drop_first(), i - 1, size);
    }
}

/// A queue of open orders has volume zero only when it is empty.
pub proof fn lemma_volume_positive(q: Seq<Order>)
    requires
        all_open(q),
        q.len() > 0,
    ensures
        volume(q) > 0,
{
    assert(q[0].size > 0);
}

/// The ids of the first `k + 1` orders are those of the first `k` and the
/// id of the order after them.
pub proof fn lemma_ids_take_next(q: Seq<Order>, k: int)
    requires
        0 <= k < q.len(),
    ensures
        ids(q.take(k + 1)) == ids(q.take(k)).insert(q[k].id),
{
    assert forall|id: u64| ids(q.take(k)).insert(q[k].id).contains(id) implies ids(
        q.take(k + 1),
    ).contains(id) by {
        if id == q[k].id {
            assert(q.take(k + 1)[k].id == id);
        } else {
            let i: int = choose|i: int|
                0 <= i < q.take(k).len() && (#[trigger] q.take(k)[i]).id == id;
            assert(q.take(k + 1)[i].id == id);
        }
    }
    assert forall|id: u64| ids(q.take(k + 1)).contains(id) implies ids(q.take(k)).insert(
        q[k].id,
    ).contains(id) by {
        let i: int = choose|i: int|
            0 <= i < q.take(k + 1).len() && (#[trigger] q.take(k + 1)[i]).id == id;
        if i < k {
            assert(q.take(k)[i].id == id);
        }
    }
    assert(ids(q.take(k + 1)) =~= ids(q.take(k)).insert(q[k].id));
}

/// What `filled_count` counts: the first `k` orders fit into `qty`, and the
/// order after them, if any, does not fit into what is left.
pub proof fn lemma_filled_count(q: Seq<Order>, qty: nat)
    ensures
        filled_count(q, qty) <= q.len(),
        volume(q.take(filled_count(q, qty) as int)) <= qty,
        filled_count(q, qty) < q.len() ==> qty - volume(q.take(filled_count(q, qty) as int))
            < q[filled_count(q, qty) as int].size,
        qty >= volume(q) ==> filled_count(q, qty) == q.len(),
        all_open(q) && filled_count(q, qty) == q.len() ==> qty >= volume(q),
    decreases q.len(),
{
    if q.len() == 0 || qty < q[0].size {
        assert(q.take(0) =~= Seq::<Order>::empty());
    } else {
        let rest: Seq<Order> = q.drop_first();
        let qty2: nat = (qty - q[0].size) as nat;
        lemma_filled_count(rest, qty2);
        let k: int = filled_count(rest, qty2) as int;
        assert(q.take(k + 1).drop_first() =~= rest.take(k));
        assert(q.take(q.len() as int) =~= q);
        assert(rest.take(rest.len() as int) =~= rest);
    }
}

/// One step of a fill: when the front order fits into `qty`, filling the
/// queue is filling the rest with what the front order left over.
pub proof fn lemma_fill_step(q: Seq<Order>, qty: nat)
    requires
        q.len() > 0,
        qty >= q[0].size,
    ensures
        fill(q, qty) == fill(q.drop_first(), (qty - q[0].size) as nat),
        filled_count(q, qty) == 1 + filled_count(q.drop_first(), (qty - q[0].size) as nat),
{
    let rest: Seq<Order> = q.drop_first();
    let qty2: nat = (qty - q[0].size) as nat;
    let k: int = filled_count(rest, qty2) as int;
    lemma_filled_count(rest, qty2);
    assert(q.take(k + 1).drop_first() =~= rest.take(k));
    assert(q.skip(k + 1) =~= rest.skip(k));
}

/// A fill that stops inside the front order only shrinks that order.
pub proof fn lemma_fill_stop(q: Seq<Order>, qty: nat)
    requires
        q.len() > 0,
        qty < q[0].size,
    ensures
        filled_count(q, qty) == 0,
        qty > 0 ==> fill(q, qty) == q.update(0, q[0].with_size((q[0].size - qty) as u32)),
        qty == 0 ==> fill(q, qty) == q,
{
    assert(q.take(0) =~= Seq::<Order>::empty());
    assert(q.skip(0) =~= q);
}

/// Filling an empty queue leaves it empty.
pub proof fn lemma_fill_empty(qty: nat)
    ensures
        fill(Seq::<Order>::empty(), qty) == Seq::<Order>::empty(),
        filled_count(Seq::<Order>::empty(), qty) == 0,
{
    let e: Seq<Order> = Seq::<Order>::empty();
    assert(e.skip(0) =~= e);
}

/// A fill takes the traded quantity out of the queue's volume, and empties
/// a queue whose volume the quantity covers.
pub proof fn lemma_fill_volume(q: Seq<Order>, qty: nat)
    requires
        all_open(q),
    ensures
        qty <= volume(q) ==> volume(fill(q, qty)) == volume(q) - qty,
        qty >= volume(q) ==> fill(q, qty).len() == 0,
        qty < volume(q) ==> fill(q, qty).len() > 0,
    decreases q.len(),
{
    if q.len() == 0 {
        lemma_fill_empty(qty);
    } else if qty < q[0].size {
        lemma_fill_stop(q, qty);
        if qty > 0 {
            lemma_volume_update(q, 0, (q[0].size - qty) as u32);
        }
    } else {
        lemma_fill_step(q, qty);
        lemma_fill_volume(q.drop_first(), (qty - q[0].size) as nat);
    }
}

/// Trades `qty` against the front of `queue`, and takes every order that is
/// used up completely out of `index`. Returns what is left of `qty`.
pub(crate) fn fill_front(
    queue: &mut VecDeque<Order>,
    index: &mut HashMap<u64, (Side, u32)>,
    qty: u32,
) -> (left: u32)
    requires
        all_open(old(queue)@),
    ensures
        final(queue)@ == fill(old(queue)@, qty as nat),
        final(index)@ == old(index)@.remove_keys(
            ids(old(queue)@.take(filled_count(old(queue)@, qty as nat) as int)),
        ),
        qty >= volume(old(queue)@) ==> left == qty - volume(old(queue)@),
        qty < volume(old(queue)@) ==> left == 0,
{
    let ghost q0: Seq<Order> = queue@;
    let ghost index0: Map<u64, (Side, u32)> = index@;
    let mut left: u32 = qty;
    let ghost mut k: int = 0;
    proof {
        assert(q0.skip(0) =~= q0);
        assert(q0.take(0) =~= Seq::<Order>::empty());
        assert(ids(q0.take(0)) =~= Set::<u64>::empty());
        assert(index0.remove_keys(Set::<u64>::empty()) =~= index0);
    }
    while left > 0 && queue.len() > 0
        invariant
            all_open(queue@),
            0 <= k <= q0.len(),
            left > 0 ==> queue@ == q0.skip(k),
            qty - left == volume(q0) - volume(queue@),
            fill(q0, qty as nat) == fill(queue@, left as nat),
            filled_count(q0, qty as nat) == k + filled_count(queue@, left as nat),
            index@ == index0.remove_keys(ids(q0.take(k))),
        decreases left,
    {
        let ghost before: Seq<Order> = queue@;
        let resting: Order = queue.pop_front().unwrap();
        proof {
            assert(queue@ =~= before.drop_first());
            assert(resting == q0[k]);
            assert(resting.size > 0);
        }
        if resting.size <= left {
            index.remove(&resting.id);
            proof {
                lemma_fill_step(before, left as nat);
                assert(queue@ =~= q0.skip(k + 1));
                lemma_ids_take_next(q0, k);
                assert(index@ =~= index0.remove_keys(ids(q0.take(k + 1))));
                k = k + 1;
            }
            left = left - resting.size;
        } else {
            let shrunk: Order = Order {
                id: resting.id,
                side: resting.side,
                price: resting.price,
                size: resting.size - left,
                timestamp: resting.timestamp,
            };
            queue.push_front(shrunk);
            proof {
                lemma_fill_stop(before, left as nat);
                assert(queue@ =~= before.update(0, shrunk));
                lemma_volume_update(before, 0, shrunk.size);
                lemma_fill_stop(queue@, 0);
            }
            left = 0;
        }
    }
    proof {
        if queue@.len() == 0 {
            lemma_fill_empty(left as nat);
        } else {
            lemma_fill_stop(queue@, 0);
            lemma_volume_positive(queue@);
        }
    }
    left
}

/// An order is in a queue grown by one order if it was there before or is
/// the one added.
pub proof fn lemma_holds_push(q: Seq<Order>, o: Order, id: u64)
    ensures
        holds(q.push(o), id) <==> holds(q, id) || o.id == id,
{
    if holds(q, id) {
        let i: int = choose|i: int| 0 <= i < q.len() && (#[trigger] q[i]).id == id;
        assert(q.push(o)[i].id == id);
    }
    if o.id == id {
        assert(q.push(o)[q.len() as int].id == id);
    }
    if holds(q.push(o), id) {
        let i: int = choose|i: int| 0 <= i < q.push(o).len() && (#[trigger] q.push(o)[i]).id == id;
        if i < q.len() {
            assert(q[i].id == id);
        }
    }
}

/// Cancels `size` units from every order of `queue` that carries `id`, in
/// place. Returns whether an order with that id is still in the queue.
pub(crate) fn reduce_queue(queue: &mut VecDeque<Order>, id: u64, size: u32) -> (kept: bool)
    ensures
        final(queue)@ == reduce(old(queue)@, id, size),
        kept == holds(final(queue)@, id),
{
    let ghost q0: Seq<Order> = queue@;
    let ghost mut j: int = 0;
    let mut i: usize = 0;
    let mut kept: bool = false;
    proof {
        assert(q0.take(0) =~= Seq::<Order>::empty());
        assert(reduce(q0.take(0), id, size) + q0.skip(0) =~= q0);
    }
    while i < queue.len()
        invariant
            0 <= j <= q0.len(),
            i <= queue@.len(),
            queue@ == reduce(q0.take(j), id, size) + q0.skip(j),
            i == reduce(q0.take(j), id, size).len(),
            kept == holds(reduce(q0.take(j), id, size), id),
        decreases q0.len() - j,
    {
        let ghost head: Seq<Order> = reduce(q0.take(j), id, size);
        let o: Order = queue[i];
        proof {
            assert(o == q0.skip(j)[0]);
            assert(q0.take(j + 1).drop_last() =~= q0.take(j));
            assert(q0.take(j + 1).last() == o);
        }
        if o.id == id {
            queue.remove(i);
            if size < o.size {
                let shrunk: Order = Order {
                    id: o.id,
                    side: o.side,
                    price: o.price,
                    size: o.size - size,
                    timestamp: o.timestamp,
                };
                queue.insert(i, shrunk);
                kept = true;
                i = i + 1;
                proof {
                    lemma_holds_push(head, shrunk, id);
                    assert(queue@ =~= head.push(shrunk) + q0.skip(j + 1));
                }
            } else {
                proof {
                    assert(queue@ =~= head + q0.skip(j + 1));
                }
            }
        } else {
            i = i + 1;
            proof {
                lemma_holds_push(head, o, id);
                assert(queue@ =~= head.push(o) + q0.skip(j + 1));
            }
        }
        proof {
            j = j + 1;
        }
    }
    proof {
        assert(q0.take(j) =~= q0);
        assert(queue@ =~= reduce(q0, id, size));
    }
    kept
}

} // verus!
