//! The synthetic activity that drives a book: random order events, their
//! application, and the orders a fresh book is seeded with.

use vstd::prelude::*;

use crate::clock::now_millis;
use crate::ladder::{best_price, has_id};
use crate::message::{ActivityType, OrderActivity, OrderActivityView, Side};
use crate::order::{Order, OrderView};
use crate::order_book::{BookView, OrderBook};
use crate::random::{coin, random_bits, uniform};
use crate::text::{decimal, push_decimal, push_signed_decimal, signed_decimal};

verus! {

/// The price, in ticks, that new orders gather around while their side of
/// the book is empty.
pub const REFERENCE_PRICE: u64 = 10_000;

/// The random draws that decide one order event.
#[derive(Debug, Clone, Copy, PartialEq, Eq, Structural)]
pub struct ActivityDraws {
    /// Out of a hundred: under 40 a new order, under 70 a quantity update,
    /// else a cancel.
    pub roll: u64,
    /// Side of a new order.
    pub side: Side,
    /// What a new order's price differs by from the best price of its side,
    /// in ticks.
    pub price_offset: i64,
    /// Quantity of a new order.
    pub quantity: u64,
    /// Tells new orders of one millisecond apart.
    pub nonce: u32,
    /// Which resting order an update or a cancel is for, by arrival.
    pub pick: usize,
    /// What an update changes the quantity by.
    pub quantity_change: i64,
}

impl ActivityDraws {
    /// The draws are within the ranges they are drawn from, for a book of
    /// `resting` orders.
    pub open spec fn in_range(self, resting: nat) -> bool {
        &&& self.roll < 100
        &&& -10 <= self.price_offset <= 10
        &&& 1000 <= self.quantity <= 10000
        &&& -2000 <= self.quantity_change <= 1000
        &&& resting > 0 ==> self.pick < resting
    }
}

/// The id of an order generated at `now`.
pub open spec fn generated_id(now: i64, nonce: u32) -> Seq<char> {
    "order_"@ + signed_decimal(now as int) + "_"@ + decimal(nonce as nat)
}

/// The price that new orders of `side` gather around: the best price of the
/// side, or the reference price while the side is empty.
pub open spec fn base_price(orders: Seq<OrderView>, side: Side) -> u64 {
    match best_price(orders, side) {
        Some(p) => p,
        None => REFERENCE_PRICE,
    }
}

/// A price moved by an offset, kept at one tick at least and within the
/// range of prices.
pub open spec fn perturbed_price(base: u64, offset: i64) -> u64 {
    if base + offset < 1 {
        1
    } else if base + offset > u64::MAX {
        u64::MAX
    } else {
        (base + offset) as u64
    }
}

/// A quantity after a change, kept at zero at least and within the range of
/// quantities.
pub open spec fn changed_quantity(quantity: u64, change: i64) -> u64 {
    if quantity + change < 0 {
        0
    } else if quantity + change > u64::MAX {
        u64::MAX
    } else {
        (quantity + change) as u64
    }
}

/// The event that the draws decide on for a book, at `now`.
///
/// A roll under 40, or an empty book, gives a new order: on the drawn side,
/// of the drawn quantity, at the base price of its side moved by the drawn
/// offset. A roll under 70 gives the picked order a new quantity, its own
/// changed by the drawn change; where that leaves nothing, the event is a
/// cancel. Any other roll cancels the picked order.
pub open spec fn planned_activity(book: BookView, draws: ActivityDraws, now: i64)
    -> OrderActivityView {
    if draws.roll < 40 || book.orders.len() == 0 {
        OrderActivityView {
            activity_type: ActivityType::Add,
            order_id: generated_id(now, draws.nonce),
            symbol: book.symbol,
            price: Some(perturbed_price(base_price(book.orders, draws.side), draws.price_offset)),
            quantity: Some(draws.quantity),
            side: Some(draws.side),
            timestamp: now,
        }
    } else {
        let picked = book.orders[draws.pick as int];
        let quantity = changed_quantity(picked.quantity, draws.quantity_change);
        if draws.roll < 70 && quantity > 0 {
            OrderActivityView {
                activity_type: ActivityType::Update,
                order_id: picked.id,
                symbol: book.symbol,
                price: None,
                quantity: Some(quantity),
                side: None,
                timestamp: now,
            }
        } else {
            OrderActivityView {
                activity_type: ActivityType::Cancel,
                order_id: picked.id,
                symbol: book.symbol,
                price: None,
                quantity: None,
                side: None,
                timestamp: now,
            }
        }
    }
}

/// Whether an event is one that the generator makes for a book: the event
/// that some draws within their ranges decide on, at some time.
pub open spec fn is_generated(book: BookView, activity: OrderActivityView) -> bool {
    exists|draws: ActivityDraws, now: i64|
        draws.in_range(book.orders.len()) && now >= 0 && activity == #[trigger] planned_activity(
            book,
            draws,
            now,
        )
}

impl BookView {
    /// The book after an event has been applied. A new order rests since the
    /// time of its event, and so does an order given a new quantity. An
    /// `Add` that lacks a price, a quantity or a side, and an `Update` that
    /// lacks a quantity, change nothing.
    pub open spec fn execute(self, activity: OrderActivityView) -> BookView {
        match activity.activity_type {
            ActivityType::Add => match (activity.price, activity.quantity, activity.side) {
                (Some(price), Some(quantity), Some(side)) => self.add(
                    OrderView {
                        id: activity.order_id,
                        price,
                        quantity,
                        side,
                        timestamp: activity.timestamp,
                        original_quantity: quantity,
                    },
                ),
                _ => self,
            },
            ActivityType::Update => match activity.quantity {
                Some(quantity) => self.update(activity.order_id, quantity, activity.timestamp),
                None => self,
            },
            ActivityType::Cancel => self.remove(activity.order_id),
        }
    }

    /// The book after a sequence of events has been applied, first to last.
    pub open spec fn run(self, activities: Seq<OrderActivityView>) -> BookView
        decreases activities.len(),
    {
        if activities.len() == 0 {
            self
        } else {
            self.run(activities.drop_last()).execute(activities.last())
        }
    }
}

/// The values of a sequence of events.
pub open spec fn activity_views(activities: Seq<OrderActivity>) -> Seq<OrderActivityView> {
    activities.map_values(|a: OrderActivity| a@)
}

/// An event that was planned for a book is applied to it: the sequence
/// number advances by one.
pub proof fn lemma_planned_is_applied(book: BookView, draws: ActivityDraws, now: i64)
    requires
        draws.in_range(book.orders.len()),
    ensures
        book.execute(planned_activity(book, draws, now)).sequence == book.sequence + 1,
{
    if !(draws.roll < 40 || book.orders.len() == 0) {
        assert(has_id(book.orders, book.orders[draws.pick as int].id));
    }
}

/// Events leave a book its symbol.
pub proof fn lemma_run_symbol(book: BookView, activities: Seq<OrderActivityView>)
    ensures
        book.run(activities).symbol == book.symbol,
    decreases activities.len(),
{
    if activities.len() > 0 {
        lemma_run_symbol(book, activities.drop_last());
    }
}

/// Executable form of [`perturbed_price`].
pub fn perturb_price(base: u64, offset: i64) -> (price: u64)
    ensures
        price == perturbed_price(base, offset),
{
    let moved: i128 = base as i128 + offset as i128;
    if moved < 1 {
        1
    } else if moved > u64::MAX as i128 {
        u64::MAX
    } else {
        moved as u64
    }
}

/// Executable form of [`changed_quantity`].
pub fn change_quantity(quantity: u64, change: i64) -> (changed: u64)
    ensures
        changed == changed_quantity(quantity, change),
{
    let moved: i128 = quantity as i128 + change as i128;
    if moved < 0 {
        0
    } else if moved > u64::MAX as i128 {
        u64::MAX
    } else {
        moved as u64
    }
}

/// The id of an order generated at `now`.
pub fn generate_id(now: i64, nonce: u32) -> (id: String)
    ensures
        id@ == generated_id(now, nonce),
{
    let mut id = String::from_str("order_");
    push_signed_decimal(&mut id, now);
    id.append("_");
    push_decimal(&mut id, nonce as u128);
    id
}

/// The number of orders that each side of a fresh book is seeded with, one
/// to a price.
pub const SEED_LEVELS: u64 = 30;

/// The longest, in milliseconds, that a seeded order is made to have rested
/// already, and more by one.
pub const SEED_AGE_LIMIT: u64 = 60_000;

/// What is drawn for one seeded order: its quantity, and since when it
/// rests.
pub struct SeedDraw {
    pub quantity: u64,
    pub since: i64,
}

/// The id of the seeded order at `step` from the top of its side.
pub open spec fn seed_id(side: Side, step: nat) -> Seq<char> {
    match side {
        Side::Bid => "bid_"@ + decimal(step),
        Side::Ask => "ask_"@ + decimal(step),
    }
}

/// The price of the seeded order at `step` from the top of its side: bids
/// go down tick by tick from five ticks under the reference price, asks go
/// up from the reference price.
pub open spec fn seed_price(side: Side, step: nat) -> int {
    match side {
        Side::Bid => REFERENCE_PRICE - 5 - step,
        Side::Ask => REFERENCE_PRICE + step,
    }
}

/// The seeded order at `step` from the top of its side.
pub open spec fn seed_order(side: Side, step: nat, draw: SeedDraw) -> OrderView {
    OrderView {
        id: seed_id(side, step),
        price: seed_price(side, step) as u64,
        quantity: draw.quantity,
        side,
        timestamp: draw.since,
        original_quantity: draw.quantity,
    }
}

/// A draw for a seeded order is within the ranges it is drawn from, at
/// `now`.
pub open spec fn seed_draw_in_range(draw: SeedDraw, now: i64) -> bool {
    &&& 1000 <= draw.quantity <= 10000
    &&& now - SEED_AGE_LIMIT < draw.since <= now
}

/// There is a draw for each of the [`SEED_LEVELS`] orders of a side, each
/// within its ranges at `now`.
pub open spec fn seed_draws_in_range(draws: Seq<SeedDraw>, now: i64) -> bool {
    &&& draws.len() == SEED_LEVELS
    &&& forall|k: int| 0 <= k < draws.len() ==> seed_draw_in_range(#[trigger] draws[k], now)
}

/// The book after one side has been seeded with an order for each draw,
/// from the top of the side down.
pub open spec fn seeded(book: BookView, side: Side, draws: Seq<SeedDraw>) -> BookView
    decreases draws.len(),
{
    if draws.len() == 0 {
        book
    } else {
        seeded(book, side, draws.drop_last()).add(
            seed_order(side, (draws.len() - 1) as nat, draws.last()),
        )
    }
}

/// Whether `after` is the book `before` with both sides seeded at `now`,
/// bids first, from these draws.
pub open spec fn is_seeded_by(
    before: BookView,
    after: BookView,
    now: i64,
    bids: Seq<SeedDraw>,
    asks: Seq<SeedDraw>,
) -> bool {
    &&& seed_draws_in_range(bids, now)
    &&& seed_draws_in_range(asks, now)
    &&& after == seeded(seeded(before, Side::Bid, bids), Side::Ask, asks)
}

/// Whether `after` is the book `before` with both sides seeded, at some time
/// and from some draws within their ranges.
pub open spec fn is_seeded(before: BookView, after: BookView) -> bool {
    exists|now: i64, bids: Seq<SeedDraw>, asks: Seq<SeedDraw>|
        is_seeded_by(before, after, now, bids, asks)
}

/// The empty book of a symbol.
pub open spec fn empty_book(symbol: Seq<char>) -> BookView {
    BookView { symbol, orders: Seq::empty(), sequence: 0 }
}

/// Whether a book is a fresh book of `symbol` as it is seeded: the empty
/// book with both sides seeded.
pub open spec fn is_sample_book(book: BookView, symbol: Seq<char>) -> bool {
    is_seeded(empty_book(symbol), book)
}

/// Seeding advances the sequence number by one for each order.
pub proof fn lemma_seeded_sequence(book: BookView, side: Side, draws: Seq<SeedDraw>)
    ensures
        seeded(book, side, draws).sequence == book.sequence + draws.len(),
        seeded(book, side, draws).symbol == book.symbol,
    decreases draws.len(),
{
    if draws.len() > 0 {
        lemma_seeded_sequence(book, side, draws.drop_last());
    }
}

/// Seeding leaves a book its symbol and advances its sequence number by one
/// for each order.
pub proof fn lemma_is_seeded(before: BookView, after: BookView)
    requires
        is_seeded(before, after),
    ensures
        after.symbol == before.symbol,
        after.sequence == before.sequence + 2 * SEED_LEVELS,
{
    let (now, bids, asks) = choose|now: i64, bids: Seq<SeedDraw>, asks: Seq<SeedDraw>|
        is_seeded_by(before, after, now, bids, asks);
    lemma_seeded_sequence(before, Side::Bid, bids);
    lemma_seeded_sequence(seeded(before, Side::Bid, bids), Side::Ask, asks);
}

impl OrderBook {
    /// The event that the draws decide on, at `now`.
    pub fn plan_activity(&self, draws: &ActivityDraws, now: i64) -> (activity: OrderActivity)
        requires
            self.wf(),
            draws.in_range(self@.orders.len()),
        ensures
            activity@ == planned_activity(self@, *draws, now),
    {
        proof {
            self.lemma_unfold();
        }
        if draws.roll < 40 || self.orders.len() == 0 {
            let (best_bid, best_ask) = self.get_best_bid_ask();
            let best = match draws.side {
                Side::Bid => best_bid,
                Side::Ask => best_ask,
            };
            let base = match best {
                Some(p) => p,
                None => REFERENCE_PRICE,
            };
            OrderActivity {
                activity_type: ActivityType::Add,
                order_id: generate_id(now, draws.nonce),
                symbol: self.symbol.clone(),
                price: Some(perturb_price(base, draws.price_offset)),
                quantity: Some(draws.quantity),
                side: Some(draws.side),
                timestamp: now,
            }
        } else {
            let picked = &self.orders[draws.pick];
            let quantity = change_quantity(picked.quantity, draws.quantity_change);
            if draws.roll < 70 && quantity > 0 {
                OrderActivity {
                    activity_type: ActivityType::Update,
                    order_id: picked.id.clone(),
                    symbol: self.symbol.clone(),
                    price: None,
                    quantity: Some(quantity),
                    side: None,
                    timestamp: now,
                }
            } else {
                OrderActivity {
                    activity_type: ActivityType::Cancel,
                    order_id: picked.id.clone(),
                    symbol: self.symbol.clone(),
                    price: None,
                    quantity: None,
                    side: None,
                    timestamp: now,
                }
            }
        }
    }

    /// Draws what decides one order event for this book.
    pub fn draw_activity(&self) -> (draws: ActivityDraws)
        ensures
            draws.in_range(self@.orders.len()),
    {
        let roll = uniform(0, 99);
        let side = if coin() {
            Side::Bid
        } else {
            Side::Ask
        };
        let price_offset = uniform(0, 20) as i64 - 10;
        let quantity = uniform(1000, 10000);
        let nonce = random_bits();
        let quantity_change = uniform(0, 3000) as i64 - 2000;
        let resting = self.order_count();
        let pick = if resting > 0 {
            uniform(0, (resting - 1) as u64) as usize
        } else {
            0
        };
        ActivityDraws { roll, side, price_offset, quantity, nonce, pick, quantity_change }
    }

    /// One random order event for this book, at the moment of the call. The
    /// event is not applied.
    pub fn generate_random_activity(&self) -> (activity: OrderActivity)
        requires
            self.wf(),
        ensures
            is_generated(self@, activity@),
    {
        let draws = self.draw_activity();
        let now = now_millis();
        self.plan_activity(&draws, now)
    }

    /// Applies an event to the book.
    pub fn execute_activity(&mut self, activity: &OrderActivity)
        requires
            old(self).wf(),
            old(self)@.sequence < u64::MAX,
        ensures
            final(self).wf(),
            final(self)@ == old(self)@.execute(activity@),
    {
        match activity.activity_type {
            ActivityType::Add => {
                match (activity.price, activity.quantity, activity.side) {
                    (Some(price), Some(quantity), Some(side)) => {
                        let order = Order::new_at(
                            activity.order_id.clone(),
                            price,
                            quantity,
                            side,
                            activity.timestamp,
                        );
                        self.add_order(order);
                    },
                    _ => {},
                }
            },
            ActivityType::Update => {
                match activity.quantity {
                    Some(quantity) => {
                        self.update_order_at(
                            activity.order_id.as_str(),
                            quantity,
                            activity.timestamp,
                        );
                    },
                    None => {},
                }
            },
            ActivityType::Cancel => {
                self.remove_order(activity.order_id.as_str());
            },
        }
    }

    /// Generates between one and eight random order events, applies each to
    /// the book as it is generated, and returns them in that order. Each
    /// event is generated for the book that the events before it have left.
    pub fn simulate_activity(&mut self) -> (activities: Vec<OrderActivity>)
        requires
            old(self).wf(),
            old(self)@.sequence + 8 <= u64::MAX,
        ensures
            final(self).wf(),
            1 <= activities.len() <= 8,
            final(self)@ == old(self)@.run(activity_views(activities@)),
            final(self)@.sequence == old(self)@.sequence + activities.len(),
            forall|k: int|
                0 <= k < activities.len() ==> is_generated(
                    old(self)@.run(activity_views(activities@).take(k)),
                    #[trigger] activity_views(activities@)[k],
                ),
    {
        let mut activities: Vec<OrderActivity> = Vec::new();
        let count = uniform(1, 8);
        let mut done: u64 = 0;
        assert(activity_views(activities@) =~= Seq::empty());
        while done < count
            invariant
                self.wf(),
                done <= count <= 8,
                activities.len() == done,
                old(self)@.sequence + 8 <= u64::MAX,
                self@ == old(self)@.run(activity_views(activities@)),
                self@.sequence == old(self)@.sequence + done,
                forall|k: int|
                    0 <= k < done ==> is_generated(
                        old(self)@.run(activity_views(activities@).take(k)),
                        #[trigger] activity_views(activities@)[k],
                    ),
            decreases count - done,
        {
            let activity = self.generate_random_activity();
            let ghost applied = activity_views(activities@);
            let ghost book = self@;
            proof {
                let (draws, now) = choose|draws: ActivityDraws, now: i64|
                    draws.in_range(self@.orders.len()) && now >= 0 && activity@
                        == #[trigger] planned_activity(self@, draws, now);
                lemma_planned_is_applied(self@, draws, now);
            }
            self.execute_activity(&activity);
            activities.push(activity);
            proof {
                let events = activity_views(activities@);
                assert(events.drop_last() =~= applied);
                assert(events.last() == activity@);
                assert forall|k: int| 0 <= k <= done implies is_generated(
                    old(self)@.run(events.take(k)),
                    #[trigger] events[k],
                ) by {
                    if k < done {
                        assert(events.take(k) =~= applied.take(k));
                        assert(events[k] == applied[k]);
                    } else {
                        assert(events.take(k) =~= applied);
                        assert(is_generated(book, activity@));
                    }
                }
            }
            done += 1;
        }
        activities
    }

    /// Seeds one side with [`SEED_LEVELS`] orders of random quantity that
    /// have rested for a random time already.
    fn seed_side(&mut self, side: Side, now: i64) -> (draws: Ghost<Seq<SeedDraw>>)
        requires
            old(self).wf(),
            old(self)@.sequence + SEED_LEVELS <= u64::MAX,
            now >= 0,
        ensures
            final(self).wf(),
            draws@.len() == SEED_LEVELS,
            forall|k: int| 0 <= k < draws@.len() ==> seed_draw_in_range(#[trigger] draws@[k], now),
            final(self)@ == seeded(old(self)@, side, draws@),
    {
        let ghost mut draws: Seq<SeedDraw> = Seq::empty();
        let mut step: u64 = 0;
        while step < SEED_LEVELS
            invariant
                self.wf(),
                step <= SEED_LEVELS,
                now >= 0,
                old(self)@.sequence + SEED_LEVELS <= u64::MAX,
                draws.len() == step,
                forall|k: int| 0 <= k < draws.len() ==> seed_draw_in_range(#[trigger] draws[k], now),
                self@ == seeded(old(self)@, side, draws),
            decreases SEED_LEVELS - step,
        {
            let quantity = uniform(1000, 10000);
            let age = uniform(0, SEED_AGE_LIMIT - 1);
            let since = now - age as i64;
            let (mut id, price) = match side {
                Side::Bid => (String::from_str("bid_"), REFERENCE_PRICE - 5 - step),
                Side::Ask => (String::from_str("ask_"), REFERENCE_PRICE + step),
            };
            push_decimal(&mut id, step as u128);
            let order = Order {
                id,
                price,
                quantity,
                side,
                timestamp: since,
                original_quantity: quantity,
            };
            proof {
                lemma_seeded_sequence(old(self)@, side, draws);
                let draw = SeedDraw { quantity, since };
                assert(order@ == seed_order(side, step as nat, draw));
                assert(draws.push(draw).drop_last() =~= draws);
                draws = draws.push(draw);
            }
            self.add_order(order);
            step += 1;
        }
        Ghost(draws)
    }

    /// Seeds the book with [`SEED_LEVELS`] bids under the reference price
    /// and as many asks from the reference price up, one order to a price,
    /// each of a random quantity and resting for up to a minute already.
    pub fn initialize_with_sample_data(&mut self)
        requires
            old(self).wf(),
            old(self)@.sequence + 2 * SEED_LEVELS <= u64::MAX,
        ensures
            final(self).wf(),
            is_seeded(old(self)@, final(self)@),
    {
        let now = now_millis();
        let bids = self.seed_side(Side::Bid, now);
        proof {
            lemma_seeded_sequence(old(self)@, Side::Bid, bids@);
        }
        let asks = self.seed_side(Side::Ask, now);
        proof {
            assert(is_seeded_by(old(self)@, self@, now, bids@, asks@));
        }
    }

    /// A fresh book of `symbol`, seeded.
    pub fn sample(symbol: String) -> (book: OrderBook)
        ensures
            book.wf(),
            is_sample_book(book@, symbol@),
            book@.symbol == symbol@,
            book@.sequence == 2 * SEED_LEVELS,
    {
        let mut book = OrderBook::new(symbol);
        book.initialize_with_sample_data();
        proof {
            lemma_is_seeded(empty_book(symbol@), book@);
        }
        book
    }
}

} // verus!
