//! Market-depth views of a book: best prices, the spread, and the
//! market-by-order and market-by-price projections.

use vstd::prelude::*;

use crate::clock::now_millis;
use crate::ladder::{
    at_level, best_price, better, beyond, distinct_ids, ids_of, lemma_best_price, level_prices,
};
use crate::message::{
    mbo_views, DataType, MBOLevel, MBOLevelView, MBPLevel, MarketDataUpdate, MarketDataView, Side,
};
use crate::order::{age_between, elapsed_millis, OrderView};
use crate::order_book::{
    has_level, in_level, ladder_of, level_ids, BookView, OrderBook, PriceLevel,
};
use crate::seq_facts::{lemma_filter_commutes, lemma_filter_keeps_all};

verus! {

/// A quotient of two whole numbers, kept exact.
#[derive(Debug, Clone, Copy, PartialEq, Eq, Structural)]
pub struct Ratio {
    pub numerator: i128,
    pub denominator: u128,
}

/// The spread between a best bid and a best ask, in ticks: the ask less the
/// bid. It is negative where the book is crossed.
pub open spec fn spread_between(bid: u64, ask: u64) -> int {
    ask - bid
}

/// The mid price between a best bid and a best ask, in ticks: half their
/// sum.
pub open spec fn mid_between(bid: u64, ask: u64) -> Ratio {
    Ratio { numerator: (bid + ask) as i128, denominator: 2 }
}

/// The spread in basis points: the spread over the mid price, times ten
/// thousand. With the mid price half the sum of the two, that is twenty
/// thousand spreads over their sum. The denominator is zero where both
/// prices are zero.
pub open spec fn spread_bps_between(bid: u64, ask: u64) -> Ratio {
    Ratio { numerator: (20000 * (ask - bid)) as i128, denominator: (bid + ask) as u128 }
}

/// The sum of the quantities of the orders.
pub open spec fn total_quantity(orders: Seq<OrderView>) -> nat
    decreases orders.len(),
{
    if orders.len() == 0 {
        0
    } else {
        (total_quantity(orders.drop_last()) + orders.last().quantity) as nat
    }
}

/// The sum of the ages of the orders at `now`.
pub open spec fn total_age(orders: Seq<OrderView>, now: i64) -> nat
    decreases orders.len(),
{
    if orders.len() == 0 {
        0
    } else {
        (total_age(orders.drop_last(), now) + age_between(orders.last().timestamp, now)) as nat
    }
}

/// The quantity that rests on one side at the given prices, all together.
pub open spec fn depth_quantity(orders: Seq<OrderView>, side: Side, prices: Seq<u64>) -> nat
    decreases prices.len(),
{
    if prices.len() == 0 {
        0
    } else {
        depth_quantity(orders, side, prices.drop_last()) + total_quantity(
            at_level(orders, side, prices.last()),
        )
    }
}

/// Whether `row` is row `j` of the market-by-price view of one side whose
/// level prices are `prices`: the price, the quantity and the number of
/// orders at that price, the quantity at that price and all prices before
/// it, and the mean age at `now`, rounded down.
pub open spec fn is_mbp_row(
    row: MBPLevel,
    orders: Seq<OrderView>,
    side: Side,
    prices: Seq<u64>,
    j: int,
    now: i64,
) -> bool {
    let here = at_level(orders, side, prices[j]);
    &&& row.price == prices[j]
    &&& row.quantity == total_quantity(here)
    &&& row.order_count == here.len()
    &&& row.side == side
    &&& row.total_quantity == depth_quantity(orders, side, prices.take(j + 1))
    &&& row.avg_age_ms == total_age(here, now) / here.len()
}

/// Whether `rows` is the market-by-price view of one side at `now`: one row
/// for each of the first `max_levels` levels, best price first.
pub open spec fn is_mbp_side(
    rows: Seq<MBPLevel>,
    orders: Seq<OrderView>,
    side: Side,
    max_levels: u32,
    now: i64,
) -> bool {
    let prices = level_prices(orders, side, max_levels as nat);
    &&& rows.len() == prices.len()
    &&& forall|j: int|
        0 <= j < rows.len() ==> is_mbp_row(#[trigger] rows[j], orders, side, prices, j, now)
}

/// The market-by-order row of one order at `now`.
pub open spec fn mbo_row(order: OrderView, now: i64) -> MBOLevelView {
    MBOLevelView {
        order_id: order.id,
        price: order.price,
        quantity: order.quantity,
        side: order.side,
        timestamp: order.timestamp,
        age_ms: age_between(order.timestamp, now) as u64,
    }
}

/// The market-by-order rows of the orders, in the same order.
pub open spec fn mbo_rows_of(orders: Seq<OrderView>, now: i64) -> Seq<MBOLevelView> {
    orders.map_values(|o: OrderView| mbo_row(o, now))
}

/// The rows of every order of one side at the given prices: price by price,
/// and first come first within a price.
pub open spec fn mbo_rows(orders: Seq<OrderView>, side: Side, prices: Seq<u64>, now: i64) -> Seq<
    MBOLevelView,
>
    decreases prices.len(),
{
    if prices.len() == 0 {
        Seq::empty()
    } else {
        mbo_rows(orders, side, prices.drop_last(), now) + mbo_rows_of(
            at_level(orders, side, prices.last()),
            now,
        )
    }
}

/// The market-by-order view of one side at `now`: the orders of the first
/// `max_levels` levels, best price first, cut after three times
/// `max_levels` rows.
pub open spec fn mbo_side(orders: Seq<OrderView>, side: Side, max_levels: u32, now: i64) -> Seq<
    MBOLevelView,
> {
    let rows = mbo_rows(orders, side, level_prices(orders, side, max_levels as nat), now);
    if rows.len() <= 3 * max_levels {
        rows
    } else {
        rows.take(3 * max_levels)
    }
}

/// Whether `data` is the view of a book at `now` that a data type and a
/// number of levels ask for: both sides, market by order or market by
/// price.
pub open spec fn is_market_data(
    data: MarketDataView,
    book: BookView,
    data_type: DataType,
    max_levels: u32,
    now: i64,
) -> bool {
    match data_type {
        DataType::MBO => data == (MarketDataView::MBO {
            bids: mbo_side(book.orders, Side::Bid, max_levels, now),
            asks: mbo_side(book.orders, Side::Ask, max_levels, now),
        }),
        DataType::MBP => {
            &&& data matches MarketDataView::MBP { bids, asks }
            &&& is_mbp_side(bids, book.orders, Side::Bid, max_levels, now)
            &&& is_mbp_side(asks, book.orders, Side::Ask, max_levels, now)
        },
    }
}

/// The prices of a ladder, level by level.
pub(crate) open spec fn ladder_prices(ladder: Seq<PriceLevel>) -> Seq<u64> {
    ladder.map_values(|l: PriceLevel| l.price)
}

/// The ids of the orders of one level.
pub(crate) open spec fn ids_of_level(orders: Seq<OrderView>, side: Side, price: u64) -> Seq<
    Seq<char>,
> {
    ids_of(at_level(orders, side, price))
}

/// A level of a ladder holds an order of its side at its price.
proof fn lemma_level_inhabited(ladder: Seq<PriceLevel>, orders: Seq<OrderView>, side: Side, a: int)
    requires
        ladder_of(ladder, orders, side),
        0 <= a < ladder.len(),
    ensures
        exists|i: int|
            0 <= i < orders.len() && (#[trigger] orders[i]).side == side && orders[i].price
                == ladder[a].price,
{
    let pred = in_level(side, ladder[a].price);
    let here = orders.filter(pred);
    assert(level_ids(ladder[a]).len() == ladder[a].ids.len());
    assert(here.len() > 0);
    orders.lemma_filter_pred(pred, 0);
    assert(here.contains(here[0]));
    orders.lemma_filter_contains_rev(pred, here[0]);
    let i = choose|i: int| 0 <= i < orders.len() && orders[i] == here[0];
    assert(orders[i].side == side && orders[i].price == ladder[a].price);
}

/// The best price of a side is the price of the first level of its ladder.
pub(crate) proof fn lemma_ladder_best(ladder: Seq<PriceLevel>, orders: Seq<OrderView>, side: Side)
    requires
        ladder_of(ladder, orders, side),
    ensures
        best_price(orders, side) == if ladder.len() == 0 {
            None
        } else {
            Some(ladder[0].price)
        },
{
    lemma_best_price(orders, side);
    if ladder.len() == 0 {
        if best_price(orders, side) is Some {
            let p = best_price(orders, side)->0;
            let i = choose|i: int|
                0 <= i < orders.len() && (#[trigger] orders[i]).side == side && orders[i].price
                    == p;
            assert(has_level(ladder, orders[i].price));
        }
    } else {
        lemma_level_inhabited(ladder, orders, side, 0);
        let w = choose|i: int|
            0 <= i < orders.len() && (#[trigger] orders[i]).side == side && orders[i].price
                == ladder[0].price;
        assert(best_price(orders, side) is Some);
        let p = best_price(orders, side)->0;
        let i = choose|i: int|
            0 <= i < orders.len() && (#[trigger] orders[i]).side == side && orders[i].price == p;
        assert(has_level(ladder, orders[i].price));
        let b = choose|b: int| 0 <= b < ladder.len() && (#[trigger] ladder[b]).price == p;
        if b > 0 {
            assert(better(side, ladder[0].price, ladder[b].price));
            assert(!better(side, orders[w].price, p));
        }
    }
}

/// Below its first level, a ladder is the ladder of the orders beyond the
/// first level's price.
proof fn lemma_ladder_rest(ladder: Seq<PriceLevel>, orders: Seq<OrderView>, side: Side)
    requires
        ladder_of(ladder, orders, side),
        ladder.len() > 0,
    ensures
        ladder_of(ladder.skip(1), beyond(orders, side, ladder[0].price), side),
{
    let top = ladder[0].price;
    let rest = ladder.skip(1);
    let far = |o: OrderView| o.side == side && better(side, top, o.price);
    let below = orders.filter(far);
    assert(below == beyond(orders, side, top));
    assert forall|a: int| 0 <= a < rest.len() implies {
        &&& (#[trigger] rest[a]).ids.len() > 0
        &&& level_ids(rest[a]) == ids_of_level(below, side, rest[a].price)
    } by {
        assert(rest[a] == ladder[a + 1]);
        let q = rest[a].price;
        assert(better(side, ladder[0].price, ladder[a + 1].price));
        let level = in_level(side, q);
        lemma_filter_commutes(orders, far, level);
        let here = orders.filter(level);
        assert forall|i: int| 0 <= i < here.len() implies far(#[trigger] here[i]) by {
            orders.lemma_filter_pred(level, i);
        }
        lemma_filter_keeps_all(here, far);
    }
    assert forall|a: int, b: int| 0 <= a < b < rest.len() implies better(
        side,
        (#[trigger] rest[a]).price,
        (#[trigger] rest[b]).price,
    ) by {
        assert(rest[a] == ladder[a + 1] && rest[b] == ladder[b + 1]);
        assert(better(side, ladder[a + 1].price, ladder[b + 1].price));
    }
    assert forall|i: int| 0 <= i < below.len() && (#[trigger] below[i]).side == side implies has_level(
        rest,
        below[i].price,
    ) by {
        orders.lemma_filter_pred(far, i);
        assert(below.contains(below[i]));
        orders.lemma_filter_contains_rev(far, below[i]);
        let j = choose|j: int| 0 <= j < orders.len() && orders[j] == below[i];
        assert(orders[j].side == side);
        assert(has_level(ladder, orders[j].price));
        let b = choose|b: int|
            0 <= b < ladder.len() && (#[trigger] ladder[b]).price == orders[j].price;
        assert(b != 0);
        assert(rest[b - 1] == ladder[b]);
    }
}

/// The first levels of a side's ladder carry the side's level prices.
pub(crate) proof fn lemma_ladder_prices(
    ladder: Seq<PriceLevel>,
    orders: Seq<OrderView>,
    side: Side,
    depth: nat,
)
    requires
        ladder_of(ladder, orders, side),
    ensures
        level_prices(orders, side, depth) == ladder_prices(ladder).take(
            if depth <= ladder.len() {
                depth as int
            } else {
                ladder.len() as int
            },
        ),
    decreases depth,
{
    let shown = if depth <= ladder.len() {
        depth as int
    } else {
        ladder.len() as int
    };
    lemma_ladder_best(ladder, orders, side);
    if depth == 0 || ladder.len() == 0 {
        assert(ladder_prices(ladder).take(shown) =~= Seq::<u64>::empty());
    } else {
        let top = ladder[0].price;
        lemma_ladder_rest(ladder, orders, side);
        lemma_ladder_prices(ladder.skip(1), beyond(orders, side, top), side, (depth - 1) as nat);
        assert(seq![top] + ladder_prices(ladder.skip(1)).take(shown - 1) =~= ladder_prices(
            ladder,
        ).take(shown));
    }
}

/// The prices of a ladder are distinct.
pub(crate) proof fn lemma_ladder_prices_distinct(
    ladder: Seq<PriceLevel>,
    orders: Seq<OrderView>,
    side: Side,
    n: int,
)
    requires
        ladder_of(ladder, orders, side),
        0 <= n <= ladder.len(),
    ensures
        ladder_prices(ladder).take(n).no_duplicates(),
{
    let prices = ladder_prices(ladder).take(n);
    assert forall|i: int, j: int| 0 <= i < prices.len() && 0 <= j < prices.len() && i
        != j implies prices[i] != prices[j] by {
        if i < j {
            assert(better(side, ladder[i].price, ladder[j].price));
        } else {
            assert(better(side, ladder[j].price, ladder[i].price));
        }
    }
}

/// The order that has the id of member `k` of a level is that member.
proof fn lemma_level_member(orders: Seq<OrderView>, side: Side, price: u64, k: int, at: int)
    requires
        distinct_ids(orders),
        0 <= k < at_level(orders, side, price).len(),
        0 <= at < orders.len(),
        orders[at].id == at_level(orders, side, price)[k].id,
    ensures
        orders[at] == at_level(orders, side, price)[k],
{
    let here = at_level(orders, side, price);
    assert(here.contains(here[k]));
    orders.lemma_filter_contains_rev(in_level(side, price), here[k]);
    let j = choose|j: int| 0 <= j < orders.len() && orders[j] == here[k];
    if j < at {
        assert(orders[j].id != orders[at].id);
    } else if at < j {
        assert(orders[at].id != orders[j].id);
    }
}

/// A sum of quantities is at most the largest quantity times their number.
pub proof fn lemma_total_quantity_bound(orders: Seq<OrderView>)
    ensures
        total_quantity(orders) <= orders.len() * u64::MAX,
    decreases orders.len(),
{
    if orders.len() > 0 {
        lemma_total_quantity_bound(orders.drop_last());
        assert((orders.len() - 1) * u64::MAX + u64::MAX == orders.len() * u64::MAX)
            by (nonlinear_arith);
    }
}

/// A sum of ages is at most the largest age times their number.
pub proof fn lemma_total_age_bound(orders: Seq<OrderView>, now: i64)
    ensures
        total_age(orders, now) <= orders.len() * u64::MAX,
    decreases orders.len(),
{
    if orders.len() > 0 {
        lemma_total_age_bound(orders.drop_last(), now);
        assert((orders.len() - 1) * u64::MAX + u64::MAX == orders.len() * u64::MAX)
            by (nonlinear_arith);
    }
}

/// The sums grow with a prefix by its next member.
proof fn lemma_totals_step(orders: Seq<OrderView>, k: int, now: i64)
    requires
        0 <= k < orders.len(),
    ensures
        total_quantity(orders.take(k + 1)) == total_quantity(orders.take(k)) + orders[k].quantity,
        total_age(orders.take(k + 1), now) == total_age(orders.take(k), now) + age_between(
            orders[k].timestamp,
            now,
        ),
{
    assert(orders.take(k + 1).drop_last() =~= orders.take(k));
}

/// No quantity rests at any price of an empty book.
proof fn lemma_depth_quantity_empty(side: Side, prices: Seq<u64>)
    ensures
        depth_quantity(Seq::<OrderView>::empty(), side, prices) == 0,
    decreases prices.len(),
{
    reveal(Seq::filter);
    if prices.len() > 0 {
        lemma_depth_quantity_empty(side, prices.drop_last());
        assert(at_level(Seq::<OrderView>::empty(), side, prices.last()) =~= Seq::<
            OrderView,
        >::empty());
    }
}

/// What an arriving order adds to the quantity at a set of distinct prices:
/// its own quantity if it is of that side and its price is among them.
proof fn lemma_depth_quantity_push(
    orders: Seq<OrderView>,
    order: OrderView,
    side: Side,
    prices: Seq<u64>,
)
    requires
        prices.no_duplicates(),
    ensures
        depth_quantity(orders.push(order), side, prices) == depth_quantity(orders, side, prices)
            + if order.side == side && prices.contains(order.price) {
            order.quantity as int
        } else {
            0
        },
    decreases prices.len(),
{
    if prices.len() > 0 {
        let front = prices.drop_last();
        let q = prices.last();
        assert(front.no_duplicates()) by {
            assert forall|i: int, j: int| 0 <= i < front.len() && 0 <= j < front.len() && i
                != j implies front[i] != front[j] by {
                assert(front[i] == prices[i] && front[j] == prices[j]);
            }
        }
        lemma_depth_quantity_push(orders, order, side, front);
        orders.lemma_filter_push(order, in_level(side, q));
        let here = at_level(orders, side, q);
        if order.side == side && order.price == q {
            assert(here.push(order).drop_last() =~= here);
            assert(!front.contains(q)) by {
                if front.contains(q) {
                    let i = choose|i: int| 0 <= i < front.len() && front[i] == q;
                    assert(prices[i] == q && prices[prices.len() - 1] == q);
                }
            }
            assert(prices.contains(q)) by {
                assert(prices[prices.len() - 1] == q);
            }
        } else if order.side == side {
            assert(prices.contains(order.price) == front.contains(order.price)) by {
                if prices.contains(order.price) {
                    let i = choose|i: int| 0 <= i < prices.len() && prices[i] == order.price;
                    assert(i != prices.len() - 1);
                    assert(front[i] == order.price);
                }
                if front.contains(order.price) {
                    let i = choose|i: int| 0 <= i < front.len() && front[i] == order.price;
                    assert(prices[i] == order.price);
                }
            }
        }
    }
}

/// The quantity at a set of distinct prices of one side is at most the
/// quantity of all the orders.
pub proof fn lemma_depth_quantity_bound(orders: Seq<OrderView>, side: Side, prices: Seq<u64>)
    requires
        prices.no_duplicates(),
    ensures
        depth_quantity(orders, side, prices) <= total_quantity(orders),
    decreases orders.len(),
{
    if orders.len() == 0 {
        lemma_depth_quantity_empty(side, prices);
        assert(orders =~= Seq::<OrderView>::empty());
    } else {
        let front = orders.drop_last();
        lemma_depth_quantity_bound(front, side, prices);
        lemma_depth_quantity_push(front, orders.last(), side, prices);
        assert(front.push(orders.last()) =~= orders);
    }
}

/// Rows of a longer prefix of a level: one more row at the end.
proof fn lemma_mbo_rows_step(here: Seq<OrderView>, k: int, now: i64)
    requires
        0 <= k < here.len(),
    ensures
        mbo_rows_of(here.take(k + 1), now) == mbo_rows_of(here.take(k), now).push(
            mbo_row(here[k], now),
        ),
{
    assert(mbo_rows_of(here.take(k + 1), now) =~= mbo_rows_of(here.take(k), now).push(
        mbo_row(here[k], now),
    ));
}

impl OrderBook {
    /// The ladder of one side.
    fn ladder(&self, side: Side) -> (ladder: &Vec<PriceLevel>)
        ensures
            *ladder == match side {
                Side::Bid => self.bids,
                Side::Ask => self.asks,
            },
    {
        match side {
            Side::Bid => &self.bids,
            Side::Ask => &self.asks,
        }
    }

    /// The highest bid and the lowest ask, each absent where its side is
    /// empty.
    pub fn get_best_bid_ask(&self) -> (best: (Option<u64>, Option<u64>))
        requires
            self.wf(),
        ensures
            best.0 == best_price(self@.orders, Side::Bid),
            best.1 == best_price(self@.orders, Side::Ask),
    {
        proof {
            self.lemma_unfold();
            lemma_ladder_best(self.bids@, self@.orders, Side::Bid);
            lemma_ladder_best(self.asks@, self@.orders, Side::Ask);
        }
        let best_bid = if self.bids.len() > 0 {
            Some(self.bids[0].price)
        } else {
            None
        };
        let best_ask = if self.asks.len() > 0 {
            Some(self.asks[0].price)
        } else {
            None
        };
        (best_bid, best_ask)
    }

    /// The spread in ticks, the mid price in ticks and the spread in basis
    /// points; all absent where either side is empty.
    pub fn get_spread_info(&self) -> (info: (Option<i128>, Option<Ratio>, Option<Ratio>))
        requires
            self.wf(),
        ensures
            match (best_price(self@.orders, Side::Bid), best_price(self@.orders, Side::Ask)) {
                (Some(bid), Some(ask)) => {
                    &&& info.0 == Some(spread_between(bid, ask) as i128)
                    &&& info.1 == Some(mid_between(bid, ask))
                    &&& info.2 == Some(spread_bps_between(bid, ask))
                },
                _ => info == (None::<i128>, None::<Ratio>, None::<Ratio>),
            },
    {
        match self.get_best_bid_ask() {
            (Some(bid), Some(ask)) => {
                let spread: i128 = ask as i128 - bid as i128;
                let sum: u128 = bid as u128 + ask as u128;
                let mid = Ratio { numerator: sum as i128, denominator: 2 };
                let bps = Ratio { numerator: 20000 * spread, denominator: sum };
                (Some(spread), Some(mid), Some(bps))
            },
            _ => (None, None, None),
        }
    }

    /// The quantity and the age at `now` of the orders of one level, each
    /// summed.
    fn level_totals(&self, level: &PriceLevel, now: i64, Ghost(side): Ghost<Side>) -> (totals: (
        u128,
        u128,
    ))
        requires
            self.wf(),
            level_ids(*level) == ids_of_level(self@.orders, side, level.price),
        ensures
            totals.0 == total_quantity(at_level(self@.orders, side, level.price)),
            totals.1 == total_age(at_level(self@.orders, side, level.price), now),
    {
        let ghost here = at_level(self@.orders, side, level.price);
        let mut quantity: u128 = 0;
        let mut ages: u128 = 0;
        let mut k: usize = 0;
        proof {
            self.lemma_unfold();
            assert(level_ids(*level).len() == level.ids.len());
        }
        while k < level.ids.len()
            invariant
                self.wf(),
                k <= level.ids.len(),
                here == at_level(self@.orders, side, level.price),
                level_ids(*level) == ids_of_level(self@.orders, side, level.price),
                here.len() == level.ids.len(),
                quantity == total_quantity(here.take(k as int)),
                ages == total_age(here.take(k as int), now),
            decreases level.ids.len() - k,
        {
            proof {
                self.lemma_unfold();
                lemma_totals_step(here, k as int, now);
                lemma_total_quantity_bound(here.take(k + 1));
                lemma_total_age_bound(here.take(k + 1), now);
                assert((k + 1) * u64::MAX <= usize::MAX * u64::MAX) by (nonlinear_arith)
                    requires
                        k + 1 <= usize::MAX,
                ;
                assert(level_ids(*level)[k as int] == here[k as int].id);
            }
            match self.position_of(level.ids[k].as_str()) {
                Some(at) => {
                    proof {
                        lemma_level_member(self@.orders, side, level.price, k as int, at as int);
                    }
                    let order = &self.orders[at];
                    quantity = quantity + order.quantity as u128;
                    ages = ages + elapsed_millis(order.timestamp, now) as u128;
                },
                None => {
                    proof {
                        assert(here.contains(here[k as int]));
                        self@.orders.lemma_filter_contains_rev(
                            in_level(side, level.price),
                            here[k as int],
                        );
                        assert(false);
                    }
                },
            }
            k += 1;
        }
        assert(here.take(k as int) =~= here);
        (quantity, ages)
    }

    /// The market-by-price view of one side at `now`.
    pub fn get_mbp_side_at(&self, side: Side, max_levels: u32, now: i64) -> (rows: Vec<MBPLevel>)
        requires
            self.wf(),
        ensures
            is_mbp_side(rows@, self@.orders, side, max_levels, now),
    {
        let ladder = self.ladder(side);
        let depth: usize = if (max_levels as usize) < ladder.len() {
            max_levels as usize
        } else {
            ladder.len()
        };
        let ghost orders = self@.orders;
        let ghost prices = level_prices(orders, side, max_levels as nat);
        proof {
            self.lemma_unfold();
            lemma_ladder_prices(ladder@, orders, side, max_levels as nat);
            lemma_ladder_prices_distinct(ladder@, orders, side, depth as int);
        }
        let mut rows: Vec<MBPLevel> = Vec::new();
        let mut cumulative: u128 = 0;
        let mut a: usize = 0;
        while a < depth
            invariant
                self.wf(),
                a <= depth <= ladder.len(),
                orders == self@.orders,
                ladder_of(ladder@, orders, side),
                prices == ladder_prices(ladder@).take(depth as int),
                prices.no_duplicates(),
                rows.len() == a,
                forall|j: int|
                    0 <= j < a ==> is_mbp_row(#[trigger] rows[j], orders, side, prices, j, now),
                cumulative == depth_quantity(orders, side, prices.take(a as int)),
            decreases depth - a,
        {
            let level = &ladder[a];
            let ghost here = at_level(orders, side, level.price);
            let (quantity, ages) = self.level_totals(level, now, Ghost(side));
            let count = level.ids.len();
            proof {
                self.lemma_unfold();
                assert(level_ids(*level).len() == count);
                assert(here.len() == count);
                assert(prices.take(a + 1).drop_last() =~= prices.take(a as int));
                assert(prices.take(a + 1).last() == level.price);
                assert(prices.take(a + 1).no_duplicates());
                lemma_depth_quantity_bound(orders, side, prices.take(a + 1));
                lemma_total_quantity_bound(orders);
                lemma_total_age_bound(here, now);
                assert(orders.len() == self.orders.len());
                assert(orders.len() * u64::MAX <= usize::MAX * u64::MAX) by (nonlinear_arith)
                    requires
                        orders.len() <= usize::MAX,
                ;
                assert(total_age(here, now) / count as nat <= u64::MAX) by (nonlinear_arith)
                    requires
                        total_age(here, now) <= count * u64::MAX,
                        count > 0,
                ;
            }
            cumulative = cumulative + quantity;
            rows.push(
                MBPLevel {
                    price: level.price,
                    quantity,
                    order_count: count as u64,
                    side,
                    total_quantity: cumulative,
                    avg_age_ms: (ages / (count as u128)) as u64,
                },
            );
            a += 1;
        }
        rows
    }

    /// The market-by-price view of both sides at `now`: bids, then asks.
    pub fn get_mbp_data_at(&self, max_levels: u32, now: i64) -> (views: (
        Vec<MBPLevel>,
        Vec<MBPLevel>,
    ))
        requires
            self.wf(),
        ensures
            is_mbp_side(views.0@, self@.orders, Side::Bid, max_levels, now),
            is_mbp_side(views.1@, self@.orders, Side::Ask, max_levels, now),
    {
        let bids = self.get_mbp_side_at(Side::Bid, max_levels, now);
        let asks = self.get_mbp_side_at(Side::Ask, max_levels, now);
        (bids, asks)
    }

    /// The market-by-price view of both sides at the moment of the call.
    pub fn get_mbp_data(&self, max_levels: u32) -> (views: (Vec<MBPLevel>, Vec<MBPLevel>))
        requires
            self.wf(),
        ensures
            exists|now: i64|
                now >= 0 && #[trigger] is_mbp_side(
                    views.0@,
                    self@.orders,
                    Side::Bid,
                    max_levels,
                    now,
                ) && is_mbp_side(views.1@, self@.orders, Side::Ask, max_levels, now),
    {
        let now = now_millis();
        self.get_mbp_data_at(max_levels, now)
    }

    /// Appends the market-by-order rows of one level.
    fn level_rows(
        &self,
        level: &PriceLevel,
        now: i64,
        rows: &mut Vec<MBOLevel>,
        Ghost(side): Ghost<Side>,
    )
        requires
            self.wf(),
            level_ids(*level) == ids_of_level(self@.orders, side, level.price),
        ensures
            mbo_views(final(rows)@) == mbo_views(old(rows)@) + mbo_rows_of(
                at_level(self@.orders, side, level.price),
                now,
            ),
    {
        let ghost here = at_level(self@.orders, side, level.price);
        let ghost before = mbo_views(rows@);
        let mut k: usize = 0;
        proof {
            assert(level_ids(*level).len() == level.ids.len());
            assert(before + mbo_rows_of(here.take(0), now) =~= before);
        }
        while k < level.ids.len()
            invariant
                self.wf(),
                k <= level.ids.len(),
                here == at_level(self@.orders, side, level.price),
                level_ids(*level) == ids_of_level(self@.orders, side, level.price),
                here.len() == level.ids.len(),
                mbo_views(rows@) == before + mbo_rows_of(here.take(k as int), now),
            decreases level.ids.len() - k,
        {
            proof {
                self.lemma_unfold();
                lemma_mbo_rows_step(here, k as int, now);
                assert(level_ids(*level)[k as int] == here[k as int].id);
            }
            match self.position_of(level.ids[k].as_str()) {
                Some(at) => {
                    proof {
                        lemma_level_member(self@.orders, side, level.price, k as int, at as int);
                    }
                    let order = &self.orders[at];
                    let ghost shown = mbo_views(rows@);
                    let row = MBOLevel {
                        order_id: order.id.clone(),
                        price: order.price,
                        quantity: order.quantity,
                        side: order.side,
                        timestamp: order.timestamp,
                        age_ms: elapsed_millis(order.timestamp, now),
                    };
                    assert(row@ == mbo_row(here[k as int], now));
                    rows.push(row);
                    assert(mbo_views(rows@) =~= shown.push(row@));
                    assert(before + mbo_rows_of(here.take(k as int), now).push(row@) =~= (before
                        + mbo_rows_of(here.take(k as int), now)).push(row@));
                },
                None => {
                    proof {
                        assert(here.contains(here[k as int]));
                        self@.orders.lemma_filter_contains_rev(
                            in_level(side, level.price),
                            here[k as int],
                        );
                        assert(false);
                    }
                },
            }
            k += 1;
        }
        assert(here.take(k as int) =~= here);
    }

    /// The market-by-order view of one side at `now`.
    pub fn get_mbo_side_at(&self, side: Side, max_levels: u32, now: i64) -> (rows: Vec<MBOLevel>)
        requires
            self.wf(),
        ensures
            mbo_views(rows@) == mbo_side(self@.orders, side, max_levels, now),
    {
        let ladder = self.ladder(side);
        let depth: usize = if (max_levels as usize) < ladder.len() {
            max_levels as usize
        } else {
            ladder.len()
        };
        let ghost orders = self@.orders;
        let ghost prices = level_prices(orders, side, max_levels as nat);
        proof {
            self.lemma_unfold();
            lemma_ladder_prices(ladder@, orders, side, max_levels as nat);
        }
        let mut rows: Vec<MBOLevel> = Vec::new();
        let mut a: usize = 0;
        assert(mbo_views(rows@) =~= mbo_rows(orders, side, prices.take(0), now));
        while a < depth
            invariant
                self.wf(),
                a <= depth <= ladder.len(),
                orders == self@.orders,
                ladder_of(ladder@, orders, side),
                prices == ladder_prices(ladder@).take(depth as int),
                mbo_views(rows@) == mbo_rows(orders, side, prices.take(a as int), now),
            decreases depth - a,
        {
            let level = &ladder[a];
            proof {
                assert(prices.take(a + 1).drop_last() =~= prices.take(a as int));
                assert(prices.take(a + 1).last() == level.price);
            }
            self.level_rows(level, now, &mut rows, Ghost(side));
            a += 1;
        }
        assert(prices.take(a as int) =~= prices);
        let limit: u64 = 3 * (max_levels as u64);
        if rows.len() as u64 > limit {
            let ghost all = mbo_views(rows@);
            rows.truncate(limit as usize);
            assert(mbo_views(rows@) =~= all.take(limit as int));
        }
        rows
    }

    /// The market-by-order view of both sides at `now`: bids, then asks.
    pub fn get_mbo_data_at(&self, max_levels: u32, now: i64) -> (views: (
        Vec<MBOLevel>,
        Vec<MBOLevel>,
    ))
        requires
            self.wf(),
        ensures
            mbo_views(views.0@) == mbo_side(self@.orders, Side::Bid, max_levels, now),
            mbo_views(views.1@) == mbo_side(self@.orders, Side::Ask, max_levels, now),
    {
        let bids = self.get_mbo_side_at(Side::Bid, max_levels, now);
        let asks = self.get_mbo_side_at(Side::Ask, max_levels, now);
        (bids, asks)
    }

    /// The market-by-order view of both sides at the moment of the call.
    pub fn get_mbo_data(&self, max_levels: u32) -> (views: (Vec<MBOLevel>, Vec<MBOLevel>))
        requires
            self.wf(),
        ensures
            exists|now: i64|
                now >= 0 && mbo_views(views.0@) == #[trigger] mbo_side(
                    self@.orders,
                    Side::Bid,
                    max_levels,
                    now,
                ) && mbo_views(views.1@) == mbo_side(self@.orders, Side::Ask, max_levels, now),
    {
        let now = now_millis();
        self.get_mbo_data_at(max_levels, now)
    }

    /// The view of the book at `now` that a data type and a number of
    /// levels ask for.
    pub fn market_data_at(&self, data_type: DataType, max_levels: u32, now: i64) -> (data:
        MarketDataUpdate)
        requires
            self.wf(),
        ensures
            is_market_data(data@, self@, data_type, max_levels, now),
    {
        match data_type {
            DataType::MBO => {
                let (bids, asks) = self.get_mbo_data_at(max_levels, now);
                MarketDataUpdate::MBO { bids, asks }
            },
            DataType::MBP => {
                let (bids, asks) = self.get_mbp_data_at(max_levels, now);
                MarketDataUpdate::MBP { bids, asks }
            },
        }
    }
}

} // verus!
