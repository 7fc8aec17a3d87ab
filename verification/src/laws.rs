//! What holds of the book whatever is done to it.

use vstd::prelude::*;

use crate::depth::{
    depth_quantity, is_mbp_row, is_mbp_side, mbo_rows, mbo_rows_of, mbo_side, total_quantity,
};
use crate::ladder::{at_level, better, has_id, lemma_level_prices, level_prices, without_id};
use crate::message::{MBOLevelView, MBPLevel, Side};
use crate::order::OrderView;
use crate::order_book::BookView;
use crate::seq_facts::{lemma_filter_drops_all, lemma_filter_keeps_all};

verus! {

/// One mutation of a book.
pub enum Mutation {
    /// An order arrives.
    Add { order: OrderView },
    /// An order is given a new quantity at a time.
    Update { id: Seq<char>, quantity: u64, now: i64 },
    /// An order is removed.
    Remove { id: Seq<char> },
}

impl BookView {
    /// The book after a mutation.
    pub open spec fn apply(self, mutation: Mutation) -> BookView {
        match mutation {
            Mutation::Add { order } => self.add(order),
            Mutation::Update { id, quantity, now } => self.update(id, quantity, now),
            Mutation::Remove { id } => self.remove(id),
        }
    }

    /// Whether a mutation is applied to the book: an arrival always is, an
    /// update and a removal where their order rests in the book.
    pub open spec fn admits(self, mutation: Mutation) -> bool {
        match mutation {
            Mutation::Add { order } => true,
            Mutation::Update { id, quantity, now } => has_id(self.orders, id),
            Mutation::Remove { id } => has_id(self.orders, id),
        }
    }

    /// The book after a sequence of mutations, first to last.
    pub open spec fn apply_all(self, mutations: Seq<Mutation>) -> BookView
        decreases mutations.len(),
    {
        if mutations.len() == 0 {
            self
        } else {
            self.apply_all(mutations.drop_last()).apply(mutations.last())
        }
    }

    /// How many of a sequence of mutations are applied, each to the book
    /// that the ones before it leave.
    pub open spec fn applied(self, mutations: Seq<Mutation>) -> nat
        decreases mutations.len(),
    {
        if mutations.len() == 0 {
            0
        } else {
            let before = mutations.drop_last();
            if self.apply_all(before).admits(mutations.last()) {
                self.applied(before) + 1
            } else {
                self.applied(before)
            }
        }
    }
}

/// The sequence number counts the mutations applied: after any sequence of
/// arrivals, updates and removals it has advanced by the number of those
/// that were applied.
pub proof fn lemma_sequence_counts_mutations(book: BookView, mutations: Seq<Mutation>)
    ensures
        book.apply_all(mutations).sequence == book.sequence + book.applied(mutations),
    decreases mutations.len(),
{
    if mutations.len() > 0 {
        lemma_sequence_counts_mutations(book, mutations.drop_last());
    }
}

/// An arrival replaces: after two orders with one id have arrived in turn,
/// the book is as if only the second had, but for the sequence number, and
/// the second is the one order with that id.
pub proof fn lemma_add_replaces(book: BookView, first: OrderView, second: OrderView)
    requires
        first.id == second.id,
    ensures
        book.add(first).add(second).orders == book.add(second).orders,
        book.add(first).add(second).orders.filter(|o: OrderView| o.id == second.id)
            == seq![second],
        book.add(first).add(second).sequence == book.sequence + 2,
{
    let id = second.id;
    let other = |o: OrderView| o.id != id;
    let same = |o: OrderView| o.id == id;
    let rest = without_id(book.orders, id);
    book.orders.lemma_filter_push(first, other);
    assert forall|i: int| 0 <= i < rest.len() implies other(#[trigger] rest[i]) && !same(
        rest[i],
    ) by {
        book.orders.lemma_filter_pred(other, i);
    }
    rest.lemma_filter_push(first, other);
    lemma_filter_keeps_all(rest, other);
    assert(without_id(rest.push(first), id) == rest);
    rest.lemma_filter_push(second, same);
    lemma_filter_drops_all(rest, same);
    assert(Seq::<OrderView>::empty().push(second) =~= seq![second]);
}

/// Giving an order the quantity zero is removing it.
pub proof fn lemma_update_to_zero_removes(book: BookView, id: Seq<char>, now: i64)
    ensures
        book.update(id, 0, now) == book.remove(id),
{
}

/// The quantities of the rows of a market-by-price view, all together.
pub open spec fn quantity_sum(rows: Seq<MBPLevel>) -> nat
    decreases rows.len(),
{
    if rows.len() == 0 {
        0
    } else {
        quantity_sum(rows.drop_last()) + rows.last().quantity as nat
    }
}

/// The quantities of the first rows of a view add up to the quantity that
/// rests at their prices.
proof fn lemma_mbp_running(
    rows: Seq<MBPLevel>,
    orders: Seq<OrderView>,
    side: Side,
    max_levels: u32,
    now: i64,
    n: int,
)
    requires
        is_mbp_side(rows, orders, side, max_levels, now),
        0 <= n <= rows.len(),
    ensures
        quantity_sum(rows.take(n)) == depth_quantity(
            orders,
            side,
            level_prices(orders, side, max_levels as nat).take(n),
        ),
    decreases n,
{
    let prices = level_prices(orders, side, max_levels as nat);
    if n > 0 {
        lemma_mbp_running(rows, orders, side, max_levels, now, n - 1);
        assert(is_mbp_row(rows[n - 1], orders, side, prices, n - 1, now));
        assert(prices.take(n).drop_last() =~= prices.take(n - 1));
        assert(prices.take(n).last() == prices[n - 1]);
        assert(rows.take(n).drop_last() =~= rows.take(n - 1));
        assert(rows.take(n).last() == rows[n - 1]);
    }
}

/// A longer run of rows adds up to no less.
proof fn lemma_quantity_sum_grows(rows: Seq<MBPLevel>, m: int, n: int)
    requires
        0 <= m <= n <= rows.len(),
    ensures
        quantity_sum(rows.take(m)) <= quantity_sum(rows.take(n)),
    decreases n - m,
{
    if m < n {
        lemma_quantity_sum_grows(rows, m, n - 1);
        assert(rows.take(n).drop_last() =~= rows.take(n - 1));
    }
}

/// A market-by-price view of one side has at most `max_levels` rows, and
/// each row's price has priority over the prices of the rows after it: bid
/// prices fall and ask prices rise, strictly.
pub proof fn lemma_mbp_prices(
    rows: Seq<MBPLevel>,
    orders: Seq<OrderView>,
    side: Side,
    max_levels: u32,
    now: i64,
)
    requires
        is_mbp_side(rows, orders, side, max_levels, now),
    ensures
        rows.len() <= max_levels,
        forall|i: int, j: int|
            0 <= i < j < rows.len() ==> better(
                side,
                (#[trigger] rows[i]).price,
                (#[trigger] rows[j]).price,
            ),
{
    let prices = level_prices(orders, side, max_levels as nat);
    lemma_level_prices(orders, side, max_levels as nat);
    assert forall|i: int, j: int| 0 <= i < j < rows.len() implies better(
        side,
        (#[trigger] rows[i]).price,
        (#[trigger] rows[j]).price,
    ) by {
        assert(is_mbp_row(rows[i], orders, side, prices, i, now));
        assert(is_mbp_row(rows[j], orders, side, prices, j, now));
        assert(better(side, prices[i], prices[j]));
    }
}

/// The cumulative quantity of each row of a market-by-price view is the sum
/// of the quantities of the rows up to it, so it never falls from a row to
/// a later one.
pub proof fn lemma_mbp_cumulative(
    rows: Seq<MBPLevel>,
    orders: Seq<OrderView>,
    side: Side,
    max_levels: u32,
    now: i64,
)
    requires
        is_mbp_side(rows, orders, side, max_levels, now),
    ensures
        forall|j: int|
            0 <= j < rows.len() ==> (#[trigger] rows[j]).total_quantity == quantity_sum(
                rows.take(j + 1),
            ),
        forall|i: int, j: int|
            0 <= i <= j < rows.len() ==> (#[trigger] rows[i]).total_quantity <= (
            #[trigger] rows[j]).total_quantity,
{
    let prices = level_prices(orders, side, max_levels as nat);
    assert forall|j: int| 0 <= j < rows.len() implies (#[trigger] rows[j]).total_quantity
        == quantity_sum(rows.take(j + 1)) by {
        lemma_mbp_running(rows, orders, side, max_levels, now, j + 1);
        assert(is_mbp_row(rows[j], orders, side, prices, j, now));
    }
    assert forall|i: int, j: int| 0 <= i <= j < rows.len() implies (
    #[trigger] rows[i]).total_quantity <= (#[trigger] rows[j]).total_quantity by {
        lemma_quantity_sum_grows(rows, i + 1, j + 1);
    }
}

/// The prices of a sequence of market-by-order rows.
pub open spec fn row_prices(rows: Seq<MBOLevelView>) -> Seq<u64> {
    rows.map_values(|r: MBOLevelView| r.price)
}

/// Every row of the orders at some prices shows one of those prices.
proof fn lemma_mbo_rows_prices(
    orders: Seq<OrderView>,
    side: Side,
    prices: Seq<u64>,
    now: i64,
    k: int,
)
    requires
        0 <= k < mbo_rows(orders, side, prices, now).len(),
    ensures
        prices.contains(mbo_rows(orders, side, prices, now)[k].price),
    decreases prices.len(),
{
    if prices.len() > 0 {
        let front = prices.drop_last();
        let before = mbo_rows(orders, side, front, now);
        let here = at_level(orders, side, prices.last());
        if k < before.len() {
            lemma_mbo_rows_prices(orders, side, front, now, k);
            let p = before[k].price;
            let j = choose|j: int| 0 <= j < front.len() && front[j] == p;
            assert(prices[j] == p);
        } else {
            let m = k - before.len();
            assert(mbo_rows(orders, side, prices, now)[k] == mbo_rows_of(here, now)[m]);
            orders.lemma_filter_pred(
                |o: OrderView| o.side == side && o.price == prices.last(),
                m,
            );
            assert(prices[prices.len() - 1] == here[m].price);
        }
    }
}

/// A market-by-order view of one side has at most three times `max_levels`
/// rows, and they show at most `max_levels` distinct prices.
pub proof fn lemma_mbo_view(orders: Seq<OrderView>, side: Side, max_levels: u32, now: i64)
    ensures
        mbo_side(orders, side, max_levels, now).len() <= 3 * max_levels,
        row_prices(mbo_side(orders, side, max_levels, now)).to_set().finite(),
        row_prices(mbo_side(orders, side, max_levels, now)).to_set().len() <= max_levels,
{
    let prices = level_prices(orders, side, max_levels as nat);
    let all = mbo_rows(orders, side, prices, now);
    let shown = mbo_side(orders, side, max_levels, now);
    let seen = row_prices(shown).to_set();
    lemma_level_prices(orders, side, max_levels as nat);
    assert forall|p: u64| seen.contains(p) implies prices.to_set().contains(p) by {
        let k = choose|k: int| 0 <= k < row_prices(shown).len() && row_prices(shown)[k] == p;
        assert(shown[k] == all[k]);
        lemma_mbo_rows_prices(orders, side, prices, now, k);
    }
    vstd::seq_lib::seq_to_set_is_finite(prices);
    vstd::set_lib::lemma_len_subset(seen, prices.to_set());
    prices.lemma_cardinality_of_set();
}

} // verus!
