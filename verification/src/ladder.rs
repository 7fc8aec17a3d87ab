//! The price ladder as a function of the resting orders.
//!
//! A book's resting orders are modelled as one sequence in order of arrival.
//! A level of one side's ladder is the subsequence of the orders of that side
//! at one price, so it is first in, first out by construction. The levels of
//! a side are ranked by price priority: the highest bid comes first, and the
//! lowest ask.

use vstd::prelude::*;

use crate::message::Side;
use crate::order::OrderView;
use crate::seq_facts::{lemma_filter_keeps_all, lemma_filter_removes_only};


verus! {

/// Whether price `p` has priority over price `q` on `side`.
pub open spec fn better(side: Side, p: u64, q: u64) -> bool {
    match side {
        Side::Bid => p > q,
        Side::Ask => p < q,
    }
}

/// No two of the orders share an id.
pub open spec fn distinct_ids(orders: Seq<OrderView>) -> bool {
    forall|i: int, j: int| 0 <= i < j < orders.len() ==> orders[i].id != orders[j].id
}

/// Whether an order with this id is among the orders.
pub open spec fn has_id(orders: Seq<OrderView>, id: Seq<char>) -> bool {
    exists|i: int| 0 <= i < orders.len() && #[trigger] orders[i].id == id
}

/// The orders but the one(s) with this id, in the same relative order.
pub open spec fn without_id(orders: Seq<OrderView>, id: Seq<char>) -> Seq<OrderView> {
    orders.filter(|o: OrderView| o.id != id)
}

/// The orders, the one(s) with this id given a new quantity and resting anew
/// since `now`.
pub open spec fn requantified(orders: Seq<OrderView>, id: Seq<char>, quantity: u64, now: i64) -> Seq<
    OrderView,
> {
    orders.map_values(
        |o: OrderView|
            if o.id == id {
                o.requantified(quantity, now)
            } else {
                o
            },
    )
}

/// The orders of one side at one price, first come first.
pub open spec fn at_level(orders: Seq<OrderView>, side: Side, price: u64) -> Seq<OrderView> {
    orders.filter(|o: OrderView| o.side == side && o.price == price)
}

/// The orders of one side at prices that `price` has priority over.
pub open spec fn beyond(orders: Seq<OrderView>, side: Side, price: u64) -> Seq<OrderView> {
    orders.filter(|o: OrderView| o.side == side && better(side, price, o.price))
}

/// The ids of the orders, in the same order.
pub open spec fn ids_of(orders: Seq<OrderView>) -> Seq<Seq<char>> {
    orders.map_values(|o: OrderView| o.id)
}

/// The price with the highest priority among the orders of one side.
pub open spec fn best_price(orders: Seq<OrderView>, side: Side) -> Option<u64>
    decreases orders.len(),
{
    if orders.len() == 0 {
        None
    } else {
        let o = orders.last();
        match best_price(orders.drop_last(), side) {
            None => if o.side == side {
                Some(o.price)
            } else {
                None
            },
            Some(p) => if o.side == side && better(side, o.price, p) {
                Some(o.price)
            } else {
                Some(p)
            },
        }
    }
}

/// The prices of the first `depth` levels of one side, best first: each
/// distinct price once.
pub open spec fn level_prices(orders: Seq<OrderView>, side: Side, depth: nat) -> Seq<u64>
    decreases depth,
{
    if depth == 0 {
        Seq::empty()
    } else {
        match best_price(orders, side) {
            None => Seq::empty(),
            Some(p) => seq![p] + level_prices(beyond(orders, side, p), side, (depth - 1) as nat),
        }
    }
}

/// `best_price` is the price of an order of that side, and no order of that
/// side has priority over it; it is absent exactly where the side is empty.
pub proof fn lemma_best_price(orders: Seq<OrderView>, side: Side)
    ensures
        match best_price(orders, side) {
            None => forall|i: int| 0 <= i < orders.len() ==> (#[trigger] orders[i]).side != side,
            Some(p) => {
                &&& exists|i: int|
                    0 <= i < orders.len() && (#[trigger] orders[i]).side == side && orders[i].price
                        == p
                &&& forall|i: int|
                    0 <= i < orders.len() && (#[trigger] orders[i]).side == side ==> !better(
                        side,
                        orders[i].price,
                        p,
                    )
            },
        },
    decreases orders.len(),
{
    if orders.len() > 0 {
        let front = orders.drop_last();
        let last = orders.len() - 1;
        lemma_best_price(front, side);
        assert forall|i: int| 0 <= i < front.len() implies front[i] == orders[i] by {}
        match best_price(front, side) {
            None => {
                if orders.last().side == side {
                    assert(orders[last].side == side && orders[last].price == orders.last().price);
                    assert forall|i: int|
                        0 <= i < orders.len() && (#[trigger] orders[i]).side == side implies !better(
                        side,
                        orders[i].price,
                        orders.last().price,
                    ) by {
                        if i < last {
                            assert(front[i].side != side);
                        }
                    }
                } else {
                    assert forall|i: int| 0 <= i < orders.len() implies (#[trigger] orders[i]).side
                        != side by {
                        if i < last {
                            assert(front[i].side != side);
                        }
                    }
                }
            },
            Some(p) => {
                let w = choose|i: int|
                    0 <= i < front.len() && (#[trigger] front[i]).side == side && front[i].price
                        == p;
                assert(orders[w] == front[w]);
                let q = best_price(orders, side)->0;
                if orders.last().side == side && better(side, orders.last().price, p) {
                    assert(orders[last].side == side && orders[last].price == q);
                } else {
                    assert(orders[w].side == side && orders[w].price == q);
                }
                assert forall|i: int|
                    0 <= i < orders.len() && (#[trigger] orders[i]).side == side implies !better(
                    side,
                    orders[i].price,
                    q,
                ) by {
                    if i < last {
                        assert(!better(side, front[i].price, p));
                    }
                }
            },
        }
    }
}

/// A filter keeps ids distinct.
pub proof fn lemma_filter_distinct(orders: Seq<OrderView>, pred: spec_fn(OrderView) -> bool)
    requires
        distinct_ids(orders),
    ensures
        distinct_ids(orders.filter(pred)),
    decreases orders.len(),
{
    reveal(Seq::filter);
    if orders.len() > 0 {
        let front = orders.drop_last();
        let kept = front.filter(pred);
        assert(distinct_ids(front)) by {
            assert forall|i: int, j: int| 0 <= i < j < front.len() implies front[i].id
                != front[j].id by {
                assert(front[i] == orders[i] && front[j] == orders[j]);
            }
        }
        lemma_filter_distinct(front, pred);
        if pred(orders.last()) {
            let all = kept.push(orders.last());
            assert forall|i: int, j: int| 0 <= i < j < all.len() implies all[i].id
                != all[j].id by {
                if j == kept.len() {
                    assert(kept.contains(kept[i]));
                    front.lemma_filter_contains_rev(pred, kept[i]);
                    let k = choose|k: int| 0 <= k < front.len() && front[k] == kept[i];
                    assert(orders[k] == front[k]);
                    assert(orders[k].id != orders[orders.len() - 1].id);
                } else {
                    assert(all[i] == kept[i] && all[j] == kept[j]);
                }
            }
        }
    }
}

/// Among orders with distinct ids, leaving out an id is removing the order
/// that has it.
pub proof fn lemma_without_is_remove(orders: Seq<OrderView>, at: int)
    requires
        distinct_ids(orders),
        0 <= at < orders.len(),
    ensures
        without_id(orders, orders[at].id) == orders.remove(at),
{
    let id = orders[at].id;
    lemma_filter_removes_only(orders, |o: OrderView| o.id != id, at);
}

/// Leaving out an id that no order has changes nothing.
pub proof fn lemma_without_absent(orders: Seq<OrderView>, id: Seq<char>)
    requires
        !has_id(orders, id),
    ensures
        without_id(orders, id) == orders,
{
    lemma_filter_keeps_all(orders, |o: OrderView| o.id != id);
}

/// What is left after an id has gone has distinct ids, and none is that id.
pub proof fn lemma_without_id(orders: Seq<OrderView>, id: Seq<char>)
    requires
        distinct_ids(orders),
    ensures
        distinct_ids(without_id(orders, id)),
        !has_id(without_id(orders, id), id),
{
    let pred = |o: OrderView| o.id != id;
    lemma_filter_distinct(orders, pred);
    assert forall|i: int| 0 <= i < without_id(orders, id).len() implies (
    #[trigger] without_id(orders, id)[i]).id != id by {
        orders.lemma_filter_pred(pred, i);
    }
}

/// The level prices of a side are `depth` at most, each is the price of an
/// order of that side, and each has priority over those after it.
pub proof fn lemma_level_prices(orders: Seq<OrderView>, side: Side, depth: nat)
    ensures
        level_prices(orders, side, depth).len() <= depth,
        forall|j: int|
            0 <= j < level_prices(orders, side, depth).len() ==> exists|i: int|
                0 <= i < orders.len() && (#[trigger] orders[i]).side == side && orders[i].price
                    == #[trigger] level_prices(orders, side, depth)[j],
        forall|j: int, k: int|
            0 <= j < k < level_prices(orders, side, depth).len() ==> better(
                side,
                #[trigger] level_prices(orders, side, depth)[j],
                #[trigger] level_prices(orders, side, depth)[k],
            ),
    decreases depth,
{
    let prices = level_prices(orders, side, depth);
    if depth > 0 && best_price(orders, side) is Some {
        let p = best_price(orders, side)->0;
        let pred = |o: OrderView| o.side == side && better(side, p, o.price);
        let below = beyond(orders, side, p);
        let tail = level_prices(below, side, (depth - 1) as nat);
        lemma_best_price(orders, side);
        lemma_level_prices(below, side, (depth - 1) as nat);
        assert(prices == seq![p] + tail);
        assert forall|j: int| 1 <= j < prices.len() implies better(side, p, #[trigger] prices[j])
            && exists|i: int|
            0 <= i < orders.len() && (#[trigger] orders[i]).side == side && orders[i].price
                == prices[j] by {
            assert(prices[j] == tail[j - 1]);
            let b = choose|b: int|
                0 <= b < below.len() && (#[trigger] below[b]).side == side && below[b].price
                    == tail[j - 1];
            orders.lemma_filter_pred(pred, b);
            assert(below.contains(below[b]));
            orders.lemma_filter_contains_rev(pred, below[b]);
            let i = choose|i: int| 0 <= i < orders.len() && orders[i] == below[b];
            assert(orders[i].side == side && orders[i].price == prices[j]);
        }
        assert forall|j: int| 0 <= j < prices.len() implies exists|i: int|
            0 <= i < orders.len() && (#[trigger] orders[i]).side == side && orders[i].price
                == #[trigger] prices[j] by {
            if j == 0 {
                assert(prices[0] == p);
            }
        }
        assert forall|j: int, k: int| 0 <= j < k < prices.len() implies better(
            side,
            #[trigger] prices[j],
            #[trigger] prices[k],
        ) by {
            if j == 0 {
                assert(prices[0] == p);
            } else {
                assert(prices[j] == tail[j - 1] && prices[k] == tail[k - 1]);
            }
        }
    }
}

} // verus!
