use vstd::prelude::*;

use crate::clock::now_millis;
use crate::message::Side;

verus! {

/// A resting order.
#[derive(Debug, Clone, PartialEq, Eq)]
pub struct Order {
    /// Unique within a symbol.
    pub id: String,
    /// In ticks.
    pub price: u64,
    pub quantity: u64,
    pub side: Side,
    /// Resting since, in milliseconds since the epoch; reset by every
    /// quantity update.
    pub timestamp: i64,
    /// The quantity the order was created with.
    pub original_quantity: u64,
}

/// The mathematical value of an [`Order`].
pub struct OrderView {
    pub id: Seq<char>,
    pub price: u64,
    pub quantity: u64,
    pub side: Side,
    pub timestamp: i64,
    pub original_quantity: u64,
}

impl View for Order {
    type V = OrderView;

    open spec fn view(&self) -> OrderView {
        OrderView {
            id: self.id@,
            price: self.price,
            quantity: self.quantity,
            side: self.side,
            timestamp: self.timestamp,
            original_quantity: self.original_quantity,
        }
    }
}

/// Age at `now` of something resting since `since`: the time elapsed,
/// never negative.
pub open spec fn age_between(since: i64, now: i64) -> int {
    if now >= since {
        now - since
    } else {
        0
    }
}

/// Executable form of [`age_between`]. The difference of two `i64` always
/// fits a `u64` once clamped at zero.
pub fn elapsed_millis(since: i64, now: i64) -> (age: u64)
    ensures
        age == age_between(since, now),
{
    if now >= since {
        if since >= 0 {
            (now - since) as u64
        } else if now < 0 {
            (now - since) as u64
        } else {
            let below: u64 = (-(since + 1)) as u64 + 1;
            now as u64 + below
        }
    } else {
        0
    }
}

impl OrderView {
    /// The same order with a new quantity, resting anew since `now`.
    pub open spec fn requantified(self, quantity: u64, now: i64) -> OrderView {
        OrderView { quantity, timestamp: now, ..self }
    }
}

impl Order {
    /// A new order resting since `now`.
    pub fn new_at(id: String, price: u64, quantity: u64, side: Side, now: i64) -> (order: Order)
        ensures
            order@ == (OrderView {
                id: id@,
                price,
                quantity,
                side,
                timestamp: now,
                original_quantity: quantity,
            }),
    {
        Order { id, price, quantity, side, timestamp: now, original_quantity: quantity }
    }

    /// A new order resting since the moment of the call.
    pub fn new(id: String, price: u64, quantity: u64, side: Side) -> (order: Order)
        ensures
            order@.id == id@,
            order@.price == price,
            order@.quantity == quantity,
            order@.side == side,
            order@.original_quantity == quantity,
            order@.timestamp >= 0,
    {
        let now = now_millis();
        Order::new_at(id, price, quantity, side, now)
    }

    /// Sets the quantity and restarts the order's age at `now`.
    pub fn update_quantity_at(&mut self, new_quantity: u64, now: i64)
        ensures
            final(self)@ == old(self)@.requantified(new_quantity, now),
    {
        self.quantity = new_quantity;
        self.timestamp = now;
    }

    /// Sets the quantity and restarts the order's age at the moment of the
    /// call.
    pub fn update_quantity(&mut self, new_quantity: u64)
        ensures
            final(self)@ == old(self)@.requantified(new_quantity, final(self)@.timestamp),
            final(self)@.timestamp >= 0,
    {
        let now = now_millis();
        self.update_quantity_at(new_quantity, now);
    }

    /// Age of the order at `now`, in milliseconds.
    pub fn age_ms_at(&self, now: i64) -> (age: u64)
        ensures
            age == age_between(self@.timestamp, now),
    {
        elapsed_millis(self.timestamp, now)
    }

    /// Age of the order at the moment of the call, in milliseconds.
    pub fn age_ms(&self) -> (age: u64)
        ensures
            exists|now: i64| now >= 0 && age == #[trigger] age_between(self@.timestamp, now),
    {
        let now = now_millis();
        self.age_ms_at(now)
    }

    /// An independent copy of the order.
    pub fn duplicate(&self) -> (copy: Order)
        ensures
            copy@ == self@,
    {
        Order {
            id: self.id.clone(),
            price: self.price,
            quantity: self.quantity,
            side: self.side,
            timestamp: self.timestamp,
            original_quantity: self.original_quantity,
        }
    }
}

} // verus!
