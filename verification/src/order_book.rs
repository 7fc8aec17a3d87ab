//! The order book of one symbol: an index of the resting orders and, for each
//! side, a ladder of price levels that holds the ids of the orders resting at
//! each price.

use vstd::prelude::*;

use crate::clock::now_millis;
use crate::ladder::{
    at_level, better, distinct_ids, has_id, ids_of, lemma_filter_distinct, lemma_without_absent,
    lemma_without_id, lemma_without_is_remove, requantified, without_id,
};
use crate::message::Side;
use crate::order::{Order, OrderView};
use crate::seq_facts::{
    lemma_filter_commutes, lemma_filter_drops_all, lemma_filter_empty_means_none,
    lemma_filter_map_agrees, lemma_filter_map_commutes, lemma_filter_remove_failing,
    lemma_filter_removes_only,
};

verus! {

/// One price of a ladder, with the ids of the orders resting there, first
/// come first.
#[derive(Debug)]
pub struct PriceLevel {
    pub(crate) price: u64,
    pub(crate) ids: Vec<String>,
}

/// The order book of one symbol.
#[derive(Debug)]
pub struct OrderBook {
    pub symbol: String,
    /// Every resting order, in order of arrival.
    pub(crate) orders: Vec<Order>,
    /// Bid levels, highest price first.
    pub(crate) bids: Vec<PriceLevel>,
    /// Ask levels, lowest price first.
    pub(crate) asks: Vec<PriceLevel>,
    pub(crate) sequence: u64,
}

/// The mathematical value of an [`OrderBook`]: its resting orders in order of
/// arrival, and the number of mutations applied so far.
pub struct BookView {
    pub symbol: Seq<char>,
    pub orders: Seq<OrderView>,
    pub sequence: nat,
}

impl BookView {
    /// The book after an order with this id, if any, has left it.
    pub open spec fn remove(self, id: Seq<char>) -> BookView {
        if has_id(self.orders, id) {
            BookView { orders: without_id(self.orders, id), sequence: self.sequence + 1, ..self }
        } else {
            self
        }
    }

    /// The book after `order` has arrived, replacing an order with its id.
    pub open spec fn add(self, order: OrderView) -> BookView {
        BookView {
            orders: without_id(self.orders, order.id).push(order),
            sequence: self.sequence + 1,
            ..self
        }
    }

    /// The book after the order with this id has been given a new quantity at
    /// `now`. A quantity of zero removes the order.
    pub open spec fn update(self, id: Seq<char>, quantity: u64, now: i64) -> BookView {
        if quantity == 0 {
            self.remove(id)
        } else if has_id(self.orders, id) {
            BookView {
                orders: requantified(self.orders, id, quantity, now),
                sequence: self.sequence + 1,
                ..self
            }
        } else {
            self
        }
    }
}

/// The mathematical value of one level of a ladder: a price, and the ids of
/// the orders resting there, first come first.
pub struct LevelView {
    pub price: u64,
    pub ids: Seq<Seq<char>>,
}

/// Whether `levels` is the ladder of one side of a book with these resting
/// orders: the prices are in strict priority order, best first; each level
/// holds the ids of exactly the orders of that side at its price, in order
/// of arrival, and there is one at least; and every order of that side
/// rests at the price of a level.
pub open spec fn is_ladder(levels: Seq<LevelView>, orders: Seq<OrderView>, side: Side) -> bool {
    &&& forall|a: int, b: int|
        0 <= a < b < levels.len() ==> better(
            side,
            (#[trigger] levels[a]).price,
            (#[trigger] levels[b]).price,
        )
    &&& forall|a: int|
        0 <= a < levels.len() ==> {
            &&& (#[trigger] levels[a]).ids.len() > 0
            &&& levels[a].ids == ids_of(at_level(orders, side, levels[a].price))
        }
    &&& forall|i: int|
        0 <= i < orders.len() && (#[trigger] orders[i]).side == side ==> exists|a: int|
            0 <= a < levels.len() && (#[trigger] levels[a]).price == orders[i].price
}

/// The ids that a level holds, as values.
pub(crate) open spec fn level_ids(level: PriceLevel) -> Seq<Seq<char>> {
    level.ids@.map_values(|s: String| s@)
}

/// Whether a ladder has a level at this price.
pub(crate) open spec fn has_level(ladder: Seq<PriceLevel>, price: u64) -> bool {
    exists|a: int| 0 <= a < ladder.len() && (#[trigger] ladder[a]).price == price
}

/// A ladder is the ladder of `side` for `orders`: its prices are in strict
/// priority order, each level holds the ids of exactly the orders of that
/// side at its price, in order of arrival, no level is empty, and every order
/// of that side has its level.
pub(crate) open spec fn ladder_of(ladder: Seq<PriceLevel>, orders: Seq<OrderView>, side: Side) -> bool {
    &&& forall|a: int, b: int|
        0 <= a < b < ladder.len() ==> better(
            side,
            (#[trigger] ladder[a]).price,
            (#[trigger] ladder[b]).price,
        )
    &&& forall|a: int|
        0 <= a < ladder.len() ==> {
            &&& (#[trigger] ladder[a]).ids.len() > 0
            &&& level_ids(ladder[a]) == ids_of(at_level(orders, side, ladder[a].price))
        }
    &&& forall|i: int|
        0 <= i < orders.len() && (#[trigger] orders[i]).side == side ==> has_level(
            ladder,
            orders[i].price,
        )
}

/// The predicate that picks the orders of one level.
pub(crate) open spec fn in_level(side: Side, price: u64) -> spec_fn(OrderView) -> bool {
    |o: OrderView| o.side == side && o.price == price
}

impl View for OrderBook {
    type V = BookView;

    closed spec fn view(&self) -> BookView {
        BookView {
            symbol: self.symbol@,
            orders: self.orders@.map_values(|o: Order| o@),
            sequence: self.sequence as nat,
        }
    }
}

/// Removing an order of the other side leaves a ladder as it was.
proof fn lemma_remove_other_side(
    ladder: Seq<PriceLevel>,
    orders: Seq<OrderView>,
    side: Side,
    at: int,
)
    requires
        ladder_of(ladder, orders, side),
        0 <= at < orders.len(),
        orders[at].side != side,
    ensures
        ladder_of(ladder, orders.remove(at), side),
{
    let rest = orders.remove(at);
    assert forall|a: int| 0 <= a < ladder.len() implies level_ids(#[trigger] ladder[a]) == ids_of(
        at_level(rest, side, ladder[a].price),
    ) by {
        lemma_filter_remove_failing(orders, in_level(side, ladder[a].price), at);
    }
    assert forall|i: int| 0 <= i < rest.len() && (#[trigger] rest[i]).side == side implies has_level(
        ladder,
        rest[i].price,
    ) by {
        if i < at {
            assert(rest[i] == orders[i]);
        } else {
            assert(rest[i] == orders[i + 1]);
        }
    }
}

/// What removing the order at `at` does to the ids of its level: the id
/// leaves, the others stay in order.
proof fn lemma_level_after_remove(orders: Seq<OrderView>, at: int, ids: Seq<Seq<char>>, m: int)
    requires
        distinct_ids(orders),
        0 <= at < orders.len(),
        ids == ids_of(at_level(orders, orders[at].side, orders[at].price)),
        0 <= m < ids.len(),
        ids[m] == orders[at].id,
    ensures
        ids_of(at_level(orders.remove(at), orders[at].side, orders[at].price)) == ids.remove(m),
{
    let id = orders[at].id;
    let side = orders[at].side;
    let price = orders[at].price;
    let level = in_level(side, price);
    let other = |o: OrderView| o.id != id;
    let other_id = |x: Seq<char>| x != id;
    let here = orders.filter(level);
    lemma_without_is_remove(orders, at);
    assert(orders.remove(at) == orders.filter(other));
    lemma_filter_commutes(orders, other, level);
    assert(at_level(orders.remove(at), side, price) == here.filter(other));
    lemma_filter_map_commutes(here, |o: OrderView| o.id, other, other_id);
    assert(ids_of(here.filter(other)) == ids.filter(other_id));
    lemma_filter_distinct(orders, level);
    assert forall|j: int| 0 <= j < ids.len() && j != m implies other_id(#[trigger] ids[j]) by {
        assert(ids[j] == here[j].id && ids[m] == here[m].id);
    }
    lemma_filter_removes_only(ids, other_id, m);
}

/// A ladder after the order at `at` has left it: either its level lost the
/// id, or the level, which held nothing else, is gone.
proof fn lemma_ladder_take(
    before: Seq<PriceLevel>,
    after: Seq<PriceLevel>,
    orders: Seq<OrderView>,
    side: Side,
    at: int,
    a: int,
    m: int,
)
    requires
        ladder_of(before, orders, side),
        distinct_ids(orders),
        0 <= at < orders.len(),
        orders[at].side == side,
        0 <= a < before.len(),
        before[a].price == orders[at].price,
        0 <= m < level_ids(before[a]).len(),
        level_ids(before[a])[m] == orders[at].id,
        if level_ids(before[a]).len() == 1 {
            after == before.remove(a)
        } else {
            &&& after.len() == before.len()
            &&& forall|b: int| 0 <= b < before.len() && b != a ==> after[b] == before[b]
            &&& after[a].price == before[a].price
            &&& level_ids(after[a]) == level_ids(before[a]).remove(m)
        },
    ensures
        ladder_of(after, orders.remove(at), side),
{
    let rest = orders.remove(at);
    let price = orders[at].price;
    let dropped = level_ids(before[a]).len() == 1;
    lemma_level_after_remove(orders, at, level_ids(before[a]), m);
    assert forall|b: int| 0 <= b < before.len() && b != a implies level_ids(#[trigger] before[b])
        == ids_of(at_level(rest, side, before[b].price)) by {
        if b < a {
            assert(better(side, before[b].price, before[a].price));
        } else {
            assert(better(side, before[a].price, before[b].price));
        }
        lemma_filter_remove_failing(orders, in_level(side, before[b].price), at);
    }
    assert forall|b: int| 0 <= b < after.len() implies {
        &&& (#[trigger] after[b]).ids.len() > 0
        &&& level_ids(after[b]) == ids_of(at_level(rest, side, after[b].price))
    } by {
        if dropped {
            if b < a {
                assert(after[b] == before[b]);
            } else {
                assert(after[b] == before[b + 1]);
            }
        } else {
            if b != a {
                assert(after[b] == before[b]);
            } else {
                assert(level_ids(before[a]).len() == before[a].ids.len());
                assert(level_ids(after[a]).len() == after[a].ids.len());
            }
        }
    }
    assert forall|b: int, c: int| 0 <= b < c < after.len() implies better(
        side,
        (#[trigger] after[b]).price,
        (#[trigger] after[c]).price,
    ) by {
        let bb = if dropped && b >= a {
            b + 1
        } else {
            b
        };
        let cc = if dropped && c >= a {
            c + 1
        } else {
            c
        };
        assert(after[b].price == before[bb].price);
        assert(after[c].price == before[cc].price);
        assert(better(side, before[bb].price, before[cc].price));
    }
    assert forall|i: int| 0 <= i < rest.len() && (#[trigger] rest[i]).side == side implies has_level(
        after,
        rest[i].price,
    ) by {
        let j = if i < at {
            i
        } else {
            i + 1
        };
        assert(rest[i] == orders[j]);
        assert(has_level(before, orders[j].price));
        let b = choose|b: int| 0 <= b < before.len() && (#[trigger] before[b]).price == orders[j].price;
        if b == a {
            if dropped {
                assert(ids_of(at_level(rest, side, price)).len() == 0);
                assert(at_level(rest, side, price).len() == 0);
                lemma_filter_empty_means_none(rest, in_level(side, price));
                assert(!in_level(side, price)(rest[i]));
                assert(false);
            } else {
                assert(after[a].price == rest[i].price);
            }
        } else if dropped {
            if b < a {
                assert(after[b] == before[b]);
            } else {
                assert(after[b - 1] == before[b]);
            }
        } else {
            assert(after[b] == before[b]);
        }
    }
}

/// Adding an order of the other side leaves a ladder as it was.
proof fn lemma_push_other_side(
    ladder: Seq<PriceLevel>,
    orders: Seq<OrderView>,
    side: Side,
    order: OrderView,
)
    requires
        ladder_of(ladder, orders, side),
        order.side != side,
    ensures
        ladder_of(ladder, orders.push(order), side),
{
    let more = orders.push(order);
    assert forall|a: int| 0 <= a < ladder.len() implies level_ids(#[trigger] ladder[a]) == ids_of(
        at_level(more, side, ladder[a].price),
    ) by {
        orders.lemma_filter_push(order, in_level(side, ladder[a].price));
    }
    assert forall|i: int| 0 <= i < more.len() && (#[trigger] more[i]).side == side implies has_level(
        ladder,
        more[i].price,
    ) by {
        assert(more[i] == orders[i]);
    }
}

/// A ladder after an order has arrived: either the level at its price got
/// its id at the end, or a new level holds it, at the place its price ranks.
proof fn lemma_ladder_put(
    before: Seq<PriceLevel>,
    after: Seq<PriceLevel>,
    orders: Seq<OrderView>,
    side: Side,
    order: OrderView,
    a: int,
)
    requires
        ladder_of(before, orders, side),
        order.side == side,
        0 <= a <= before.len(),
        forall|b: int| 0 <= b < a ==> better(side, (#[trigger] before[b]).price, order.price),
        a < before.len() ==> !better(side, before[a].price, order.price),
        if a < before.len() && before[a].price == order.price {
            &&& after.len() == before.len()
            &&& forall|b: int| 0 <= b < before.len() && b != a ==> after[b] == before[b]
            &&& after[a].price == order.price
            &&& level_ids(after[a]) == level_ids(before[a]).push(order.id)
        } else {
            &&& after.len() == before.len() + 1
            &&& forall|b: int| 0 <= b < a ==> after[b] == before[b]
            &&& forall|b: int| a <= b < before.len() ==> after[b + 1] == before[b]
            &&& after[a].price == order.price
            &&& level_ids(after[a]) == seq![order.id]
        },
    ensures
        ladder_of(after, orders.push(order), side),
{
    let more = orders.push(order);
    let price = order.price;
    let joined = a < before.len() && before[a].price == price;
    orders.lemma_filter_push(order, in_level(side, price));
    assert(ids_of(at_level(orders, side, price).push(order)) =~= ids_of(
        at_level(orders, side, price),
    ).push(order.id));
    if !joined {
        assert(!has_level(before, price)) by {
            if has_level(before, price) {
                let b = choose|b: int| 0 <= b < before.len() && (#[trigger] before[b]).price == price;
                if b < a {
                    assert(better(side, before[b].price, price));
                } else if b > a {
                    assert(better(side, before[a].price, before[b].price));
                }
            }
        }
        assert forall|i: int| 0 <= i < orders.len() implies !in_level(side, price)(
            #[trigger] orders[i],
        ) by {
            if orders[i].side == side && orders[i].price == price {
                assert(has_level(before, orders[i].price));
            }
        }
        lemma_filter_drops_all(orders, in_level(side, price));
        assert(ids_of(Seq::<OrderView>::empty().push(order)) =~= seq![order.id]);
    }
    assert forall|b: int| 0 <= b < before.len() && before[b].price != price implies level_ids(
        #[trigger] before[b],
    ) == ids_of(at_level(more, side, before[b].price)) by {
        orders.lemma_filter_push(order, in_level(side, before[b].price));
    }
    assert forall|b: int| 0 <= b < after.len() implies {
        &&& (#[trigger] after[b]).ids.len() > 0
        &&& level_ids(after[b]) == ids_of(at_level(more, side, after[b].price))
    } by {
        assert(level_ids(after[b]).len() == after[b].ids.len());
        if b == a {
        } else if joined {
            assert(after[b] == before[b]);
            if b < a {
                assert(better(side, before[b].price, before[a].price));
            } else {
                assert(better(side, before[a].price, before[b].price));
            }
        } else if b < a {
            assert(after[b] == before[b]);
        } else {
            assert(after[b] == before[b - 1]);
            if b - 1 > a {
                assert(better(side, before[a].price, before[b - 1].price));
            }
        }
    }
    assert forall|b: int, c: int| 0 <= b < c < after.len() implies better(
        side,
        (#[trigger] after[b]).price,
        (#[trigger] after[c]).price,
    ) by {
        if joined {
            assert(after[b].price == before[b].price);
            assert(after[c].price == before[c].price);
            assert(better(side, before[b].price, before[c].price));
        } else {
            if c < a {
                assert(after[b] == before[b] && after[c] == before[c]);
                assert(better(side, before[b].price, before[c].price));
            } else if c == a {
                assert(after[b] == before[b]);
            } else if b == a {
                assert(after[c] == before[c - 1]);
                if c - 1 > a {
                    assert(better(side, before[a].price, before[c - 1].price));
                }
            } else if b < a {
                assert(after[b] == before[b] && after[c] == before[c - 1]);
                assert(better(side, before[b].price, before[c - 1].price));
            } else {
                assert(after[b] == before[b - 1] && after[c] == before[c - 1]);
                assert(better(side, before[b - 1].price, before[c - 1].price));
            }
        }
    }
    assert forall|i: int| 0 <= i < more.len() && (#[trigger] more[i]).side == side implies has_level(
        after,
        more[i].price,
    ) by {
        if i == orders.len() {
            assert(after[a].price == more[i].price);
        } else {
            assert(more[i] == orders[i]);
            assert(has_level(before, orders[i].price));
            let b = choose|b: int|
                0 <= b < before.len() && (#[trigger] before[b]).price == orders[i].price;
            if joined || b < a {
                assert(after[b].price == before[b].price);
            } else {
                assert(after[b + 1] == before[b]);
            }
        }
    }
}

/// Giving an order a new quantity leaves every ladder as it was.
proof fn lemma_requantified_ladder(
    ladder: Seq<PriceLevel>,
    orders: Seq<OrderView>,
    side: Side,
    id: Seq<char>,
    quantity: u64,
    now: i64,
)
    requires
        ladder_of(ladder, orders, side),
    ensures
        ladder_of(ladder, requantified(orders, id, quantity, now), side),
{
    let after = requantified(orders, id, quantity, now);
    assert forall|a: int| 0 <= a < ladder.len() implies level_ids(#[trigger] ladder[a]) == ids_of(
        at_level(after, side, ladder[a].price),
    ) by {
        lemma_filter_map_agrees(
            orders,
            after,
            in_level(side, ladder[a].price),
            |o: OrderView| o.id,
        );
    }
    assert forall|i: int| 0 <= i < after.len() && (#[trigger] after[i]).side == side implies has_level(
        ladder,
        after[i].price,
    ) by {
        assert(orders[i].side == side);
    }
}

/// An id in a ladder is the id of a resting order of the ladder's side at
/// the level's price, and it is in no other place of the ladder.
pub proof fn lemma_one_slot(
    levels: Seq<LevelView>,
    orders: Seq<OrderView>,
    side: Side,
    a: int,
    k: int,
)
    requires
        is_ladder(levels, orders, side),
        distinct_ids(orders),
        0 <= a < levels.len(),
        0 <= k < levels[a].ids.len(),
    ensures
        exists|i: int|
            0 <= i < orders.len() && (#[trigger] orders[i]).id == levels[a].ids[k] && orders[i].side
                == side && orders[i].price == levels[a].price,
        forall|b: int, m: int|
            0 <= b < levels.len() && 0 <= m < levels[b].ids.len() && (b != a || m != k)
                ==> #[trigger] levels[b].ids[m] != levels[a].ids[k],
{
    let here = at_level(orders, side, levels[a].price);
    orders.lemma_filter_pred(in_level(side, levels[a].price), k);
    assert(here.contains(here[k]));
    orders.lemma_filter_contains_rev(in_level(side, levels[a].price), here[k]);
    let i = choose|i: int| 0 <= i < orders.len() && orders[i] == here[k];
    assert(orders[i].id == levels[a].ids[k]);
    assert forall|b: int, m: int|
        0 <= b < levels.len() && 0 <= m < levels[b].ids.len() && (b != a || m != k)
        implies #[trigger] levels[b].ids[m] != levels[a].ids[k] by {
        let there = at_level(orders, side, levels[b].price);
        orders.lemma_filter_pred(in_level(side, levels[b].price), m);
        if b == a {
            lemma_filter_distinct(orders, in_level(side, levels[a].price));
            if m < k {
                assert(here[m].id != here[k].id);
            } else {
                assert(here[k].id != here[m].id);
            }
        } else {
            if b < a {
                assert(better(side, levels[b].price, levels[a].price));
            } else {
                assert(better(side, levels[a].price, levels[b].price));
            }
            assert(there.contains(there[m]));
            orders.lemma_filter_contains_rev(in_level(side, levels[b].price), there[m]);
            let j = choose|j: int| 0 <= j < orders.len() && orders[j] == there[m];
            if i < j {
                assert(orders[i].id != orders[j].id);
            } else if j < i {
                assert(orders[j].id != orders[i].id);
            }
        }
    }
}

/// Executable form of [`better`].
pub fn has_priority(side: Side, p: u64, q: u64) -> (yes: bool)
    ensures
        yes == better(side, p, q),
{
    match side {
        Side::Bid => p > q,
        Side::Ask => p < q,
    }
}

/// Position in a ladder of the level at `price`.
fn level_at(ladder: &Vec<PriceLevel>, price: u64) -> (found: Option<usize>)
    ensures
        match found {
            Some(a) => a < ladder.len() && ladder[a as int].price == price,
            None => !has_level(ladder@, price),
        },
{
    let mut a: usize = 0;
    while a < ladder.len()
        invariant
            a <= ladder.len(),
            forall|b: int| 0 <= b < a ==> (#[trigger] ladder[b]).price != price,
        decreases ladder.len() - a,
    {
        if ladder[a].price == price {
            return Some(a);
        }
        a += 1;
    }
    None
}

/// Position in a level of an id.
fn slot_of(level: &PriceLevel, id: &str) -> (found: Option<usize>)
    ensures
        match found {
            Some(m) => m < level.ids.len() && level_ids(*level)[m as int] == id@,
            None => forall|k: int|
                0 <= k < level_ids(*level).len() ==> (#[trigger] level_ids(*level)[k]) != id@,
        },
{
    let mut m: usize = 0;
    while m < level.ids.len()
        invariant
            m <= level.ids.len(),
            forall|k: int| 0 <= k < m ==> (#[trigger] level_ids(*level)[k]) != id@,
        decreases level.ids.len() - m,
    {
        if level.ids[m].as_str().eq(id) {
            return Some(m);
        }
        m += 1;
    }
    None
}

/// Takes the id of the order at `at` out of the ladder of its side.
fn ladder_take(
    ladder: &mut Vec<PriceLevel>,
    side: Side,
    price: u64,
    id: &str,
    Ghost(orders): Ghost<Seq<OrderView>>,
    Ghost(at): Ghost<int>,
)
    requires
        ladder_of(old(ladder)@, orders, side),
        distinct_ids(orders),
        0 <= at < orders.len(),
        orders[at].id == id@,
        orders[at].side == side,
        orders[at].price == price,
    ensures
        ladder_of(final(ladder)@, orders.remove(at), side),
{
    let ghost before = ladder@;
    assert(has_level(before, orders[at].price));
    match level_at(ladder, price) {
        None => {},
        Some(a) => {
            proof {
                let here = at_level(orders, side, price);
                orders.lemma_filter_contains(in_level(side, price), at);
                let k = choose|k: int| 0 <= k < here.len() && here[k] == orders[at];
                assert(level_ids(before[a as int])[k] == id@);
            }
            match slot_of(&ladder[a], id) {
                None => {},
                Some(m) => {
                    if ladder[a].ids.len() == 1 {
                        ladder.remove(a);
                    } else {
                        ladder[a].ids.remove(m);
                        assert(level_ids(ladder@[a as int]) =~= level_ids(before[a as int]).remove(
                            m as int,
                        ));
                    }
                    proof {
                        lemma_ladder_take(before, ladder@, orders, side, at, a as int, m as int);
                    }
                },
            }
        },
    }
}

/// Puts the id of an arriving order into the ladder of its side.
fn ladder_put(
    ladder: &mut Vec<PriceLevel>,
    side: Side,
    price: u64,
    id: String,
    Ghost(orders): Ghost<Seq<OrderView>>,
    Ghost(order): Ghost<OrderView>,
)
    requires
        ladder_of(old(ladder)@, orders, side),
        order.side == side,
        order.price == price,
        order.id == id@,
    ensures
        ladder_of(final(ladder)@, orders.push(order), side),
{
    let ghost before = ladder@;
    let mut a: usize = 0;
    while a < ladder.len() && has_priority(side, ladder[a].price, price)
        invariant
            a <= ladder.len(),
            ladder@ == before,
            forall|b: int| 0 <= b < a ==> better(side, (#[trigger] before[b]).price, price),
        decreases ladder.len() - a,
    {
        a += 1;
    }
    if a < ladder.len() && ladder[a].price == price {
        ladder[a].ids.push(id);
        assert(level_ids(ladder@[a as int]) =~= level_ids(before[a as int]).push(order.id));
    } else {
        let mut ids: Vec<String> = Vec::new();
        ids.push(id);
        let level = PriceLevel { price, ids };
        assert(level_ids(level) =~= seq![order.id]);
        ladder.insert(a, level);
    }
    proof {
        lemma_ladder_put(before, ladder@, orders, side, order, a as int);
    }
}

impl OrderBook {
    /// The book's invariant: no two resting orders share an id, and each
    /// side's ladder is the ladder of the resting orders of that side.
    pub closed spec fn wf(&self) -> bool {
        &&& distinct_ids(self@.orders)
        &&& ladder_of(self.bids@, self@.orders, Side::Bid)
        &&& ladder_of(self.asks@, self@.orders, Side::Ask)
    }

    /// What the invariant says, for the modules that read the ladders.
    pub(crate) proof fn lemma_unfold(&self)
        requires
            self.wf(),
        ensures
            self@.symbol == self.symbol@,
            self@.orders == self.orders@.map_values(|o: Order| o@),
            self@.sequence == self.sequence,
            distinct_ids(self@.orders),
            ladder_of(self.bids@, self@.orders, Side::Bid),
            ladder_of(self.asks@, self@.orders, Side::Ask),
    {
    }

    /// No two orders of a well-formed book share an id.
    pub proof fn lemma_distinct_ids(&self)
        requires
            self.wf(),
        ensures
            distinct_ids(self@.orders),
    {
    }

    /// The symbol of the book's value is the book's symbol.
    pub(crate) proof fn lemma_symbol(&self)
        ensures
            self@.symbol == self.symbol@,
    {
    }

    /// An empty book for `symbol`.
    pub fn new(symbol: String) -> (book: OrderBook)
        ensures
            book.wf(),
            book@ == (BookView { symbol: symbol@, orders: Seq::empty(), sequence: 0 }),
    {
        let book = OrderBook {
            symbol,
            orders: Vec::new(),
            bids: Vec::new(),
            asks: Vec::new(),
            sequence: 0,
        };
        assert(book@.orders =~= Seq::empty());
        book
    }

    /// The number of mutations applied so far.
    pub fn get_sequence(&self) -> (sequence: u64)
        ensures
            sequence == self@.sequence,
    {
        self.sequence
    }

    /// The number of resting orders.
    pub fn order_count(&self) -> (count: usize)
        ensures
            count == self@.orders.len(),
    {
        self.orders.len()
    }

    /// Position in the index of the order with this id.
    pub(crate) fn position_of(&self, order_id: &str) -> (found: Option<usize>)
        ensures
            match found {
                Some(i) => i < self@.orders.len() && self@.orders[i as int].id == order_id@,
                None => !has_id(self@.orders, order_id@),
            },
    {
        let mut i: usize = 0;
        while i < self.orders.len()
            invariant
                i <= self.orders.len(),
                forall|j: int| 0 <= j < i ==> (#[trigger] self@.orders[j]).id != order_id@,
            decreases self.orders.len() - i,
        {
            if self.orders[i].id.as_str().eq(order_id) {
                return Some(i);
            }
            i += 1;
        }
        None
    }

    /// Whether an order with this id rests in the book.
    pub fn contains(&self, order_id: &str) -> (found: bool)
        ensures
            found == has_id(self@.orders, order_id@),
    {
        self.position_of(order_id).is_some()
    }

    /// Takes the order at position `at` out of the index and out of the
    /// ladder of its side.
    fn take_out(&mut self, at: usize) -> (order: Order)
        requires
            old(self).wf(),
            at < old(self)@.orders.len(),
        ensures
            final(self).wf(),
            final(self)@ == (BookView {
                orders: old(self)@.orders.remove(at as int),
                ..old(self)@
            }),
            order@ == old(self)@.orders[at as int],
    {
        let ghost before = self@.orders;
        let order = self.orders.remove(at);
        assert(self@.orders =~= before.remove(at as int));
        match order.side {
            Side::Bid => {
                ladder_take(
                    &mut self.bids,
                    Side::Bid,
                    order.price,
                    order.id.as_str(),
                    Ghost(before),
                    Ghost(at as int),
                );
                proof {
                    lemma_remove_other_side(self.asks@, before, Side::Ask, at as int);
                }
            },
            Side::Ask => {
                ladder_take(
                    &mut self.asks,
                    Side::Ask,
                    order.price,
                    order.id.as_str(),
                    Ghost(before),
                    Ghost(at as int),
                );
                proof {
                    lemma_remove_other_side(self.bids@, before, Side::Bid, at as int);
                }
            },
        }
        proof {
            lemma_without_is_remove(before, at as int);
            lemma_without_id(before, before[at as int].id);
        }
        order
    }

    /// Removes the order with this id, and the level it rested at if that
    /// is left empty. The sequence number advances only if the order
    /// existed.
    pub fn remove_order(&mut self, order_id: &str) -> (removed: bool)
        requires
            old(self).wf(),
            has_id(old(self)@.orders, order_id@) ==> old(self)@.sequence < u64::MAX,
        ensures
            final(self).wf(),
            final(self)@ == old(self)@.remove(order_id@),
            removed == has_id(old(self)@.orders, order_id@),
    {
        match self.position_of(order_id) {
            None => false,
            Some(at) => {
                proof {
                    lemma_without_is_remove(self@.orders, at as int);
                }
                let _ = self.take_out(at);
                self.sequence = self.sequence + 1;
                true
            },
        }
    }

    /// Puts `order` into the book, behind the orders already resting at its
    /// price. An order with the same id is removed first. Always succeeds.
    pub fn add_order(&mut self, order: Order) -> (added: bool)
        requires
            old(self).wf(),
            old(self)@.sequence < u64::MAX,
        ensures
            final(self).wf(),
            final(self)@ == old(self)@.add(order@),
            added,
    {
        match self.position_of(order.id.as_str()) {
            Some(at) => {
                proof {
                    lemma_without_is_remove(self@.orders, at as int);
                }
                let _ = self.take_out(at);
            },
            None => {
                proof {
                    lemma_without_absent(self@.orders, order@.id);
                }
            },
        }
        let ghost rest = self@.orders;
        let ghost arriving = order@;
        proof {
            lemma_without_id(old(self)@.orders, arriving.id);
        }
        let id = order.id.clone();
        let side = order.side;
        let price = order.price;
        self.orders.push(order);
        assert(self@.orders =~= rest.push(arriving));
        match side {
            Side::Bid => {
                ladder_put(&mut self.bids, Side::Bid, price, id, Ghost(rest), Ghost(arriving));
                proof {
                    lemma_push_other_side(self.asks@, rest, Side::Ask, arriving);
                }
            },
            Side::Ask => {
                ladder_put(&mut self.asks, Side::Ask, price, id, Ghost(rest), Ghost(arriving));
                proof {
                    lemma_push_other_side(self.bids@, rest, Side::Bid, arriving);
                }
            },
        }
        self.sequence = self.sequence + 1;
        true
    }

    /// Gives the order with this id a new quantity and restarts its age at
    /// `now`. A quantity of zero removes the order. Returns whether the
    /// order existed; an unknown id changes nothing.
    pub fn update_order_at(&mut self, order_id: &str, new_quantity: u64, now: i64) -> (updated:
        bool)
        requires
            old(self).wf(),
            has_id(old(self)@.orders, order_id@) ==> old(self)@.sequence < u64::MAX,
        ensures
            final(self).wf(),
            final(self)@ == old(self)@.update(order_id@, new_quantity, now),
            updated == has_id(old(self)@.orders, order_id@),
    {
        if new_quantity == 0 {
            return self.remove_order(order_id);
        }
        match self.position_of(order_id) {
            None => false,
            Some(at) => {
                let ghost before = self@.orders;
                self.orders[at].quantity = new_quantity;
                self.orders[at].timestamp = now;
                proof {
                    let after = requantified(before, order_id@, new_quantity, now);
                    assert(self@.orders =~= after) by {
                        assert forall|i: int| 0 <= i < before.len() implies self@.orders[i]
                            == after[i] by {
                            if i != at {
                                assert(before[i].id != before[at as int].id);
                            }
                        }
                    }
                    assert(distinct_ids(after)) by {
                        assert forall|i: int, j: int| 0 <= i < j < after.len() implies after[i].id
                            != after[j].id by {
                            assert(after[i].id == before[i].id && after[j].id == before[j].id);
                        }
                    }
                    lemma_requantified_ladder(
                        self.bids@,
                        before,
                        Side::Bid,
                        order_id@,
                        new_quantity,
                        now,
                    );
                    lemma_requantified_ladder(
                        self.asks@,
                        before,
                        Side::Ask,
                        order_id@,
                        new_quantity,
                        now,
                    );
                }
                self.sequence = self.sequence + 1;
                true
            },
        }
    }

    /// [`OrderBook::update_order_at`] at the moment of the call.
    pub fn update_order(&mut self, order_id: &str, new_quantity: u64) -> (updated: bool)
        requires
            old(self).wf(),
            has_id(old(self)@.orders, order_id@) ==> old(self)@.sequence < u64::MAX,
        ensures
            final(self).wf(),
            updated == has_id(old(self)@.orders, order_id@),
            new_quantity == 0 ==> final(self)@ == old(self)@.remove(order_id@),
            exists|now: i64|
                now >= 0 && final(self)@ == #[trigger] old(self)@.update(
                    order_id@,
                    new_quantity,
                    now,
                ),
    {
        let now = now_millis();
        self.update_order_at(order_id, new_quantity, now)
    }

    /// The ladder of one side, as a value.
    pub closed spec fn ladder_view(&self, side: Side) -> Seq<LevelView> {
        let ladder = match side {
            Side::Bid => self.bids@,
            Side::Ask => self.asks@,
        };
        ladder.map_values(|l: PriceLevel| LevelView { price: l.price, ids: level_ids(l) })
    }

    /// The ladders of a well-formed book are the ladders of its resting
    /// orders.
    pub proof fn lemma_ladders(&self, side: Side)
        requires
            self.wf(),
        ensures
            is_ladder(self.ladder_view(side), self@.orders, side),
    {
        let ladder = match side {
            Side::Bid => self.bids@,
            Side::Ask => self.asks@,
        };
        let levels = self.ladder_view(side);
        assert(ladder_of(ladder, self@.orders, side));
        assert forall|a: int| 0 <= a < levels.len() implies {
            &&& (#[trigger] levels[a]).ids.len() > 0
            &&& levels[a].ids == ids_of(at_level(self@.orders, side, levels[a].price))
        } by {
            assert(level_ids(ladder[a]).len() == ladder[a].ids.len());
        }
        assert forall|i: int|
            0 <= i < self@.orders.len() && (#[trigger] self@.orders[i]).side
                == side implies exists|a: int|
            0 <= a < levels.len() && (#[trigger] levels[a]).price == self@.orders[i].price by {
            assert(has_level(ladder, self@.orders[i].price));
            let a = choose|a: int|
                0 <= a < ladder.len() && (#[trigger] ladder[a]).price == self@.orders[i].price;
            assert(levels[a].price == self@.orders[i].price);
        }
    }
}

} // verus!
