//! Orders, trades and their lifecycle rules.
use vstd::prelude::*;

verus! {

/// A price in integer ticks of the instrument.
pub type Price = u64;

/// A number of units.
pub type Quantity = u64;

/// The identifier of an order: the 128 bits of a UUID.
pub type OrderId = u128;

/// The identifier of a trade: the 128 bits of a UUID.
pub type TradeId = u128;

/// Milliseconds since the Unix epoch.
pub type Timestamp = i64;

#[derive(Debug, Clone, Copy, PartialEq, Eq, Structural)]
pub enum OrderSide {
    Buy,
    Sell,
}

#[derive(Debug, Clone, Copy, PartialEq, Eq, Structural)]
pub enum OrderType {
    Limit,
}

#[derive(Debug, Clone, Copy, PartialEq, Eq, Structural)]
pub enum OrderStatus {
    Open,
    PartiallyFilled,
    Filled,
    Cancelled,
}

/// The status that a (not cancelled) order has after `filled` of its `quantity` units
/// have traded.
pub open spec fn fill_status(filled: u64, quantity: u64) -> OrderStatus {
    if filled == 0 {
        OrderStatus::Open
    } else if filled < quantity {
        OrderStatus::PartiallyFilled
    } else {
        OrderStatus::Filled
    }
}

#[derive(Debug, Clone, Copy)]
pub struct Order {
    pub id: OrderId,
    pub side: OrderSide,
    pub order_type: OrderType,
    pub price: Price,
    pub quantity: Quantity,
    pub filled_quantity: Quantity,
    pub status: OrderStatus,
    pub timestamp: Timestamp,
}

impl Order {
    /// Units still to trade.
    pub open spec fn rem(self) -> int {
        self.quantity - self.filled_quantity
    }

    /// The lifecycle invariant: the filled quantity never exceeds the quantity, and
    /// the status is the function of the two (or `Cancelled`, which is set only while
    /// the order is not fully filled).
    pub open spec fn wf(self) -> bool {
        &&& self.filled_quantity <= self.quantity
        &&& if self.status == OrderStatus::Cancelled {
            self.filled_quantity < self.quantity
        } else {
            self.status == fill_status(self.filled_quantity, self.quantity)
        }
    }

    /// An order that can rest in the book: not cancelled and with units left.
    pub open spec fn is_live(self) -> bool {
        self.status != OrderStatus::Cancelled && self.rem() > 0
    }

    /// The order after `q` more units traded.
    pub open spec fn filled_by(self, q: int) -> Order {
        let f = self.filled_quantity + q;
        Order {
            filled_quantity: f as u64,
            status: if f >= self.quantity {
                OrderStatus::Filled
            } else {
                OrderStatus::PartiallyFilled
            },
            ..self
        }
    }

    /// The order with its status set to `Cancelled`.
    pub open spec fn cancelled(self) -> Order {
        Order { status: OrderStatus::Cancelled, ..self }
    }

    /// A fresh limit order with a new identifier and the current time.
    pub fn new(side: OrderSide, price: Price, quantity: Quantity) -> (r: Order)
        ensures
            r.side == side,
            r.order_type == OrderType::Limit,
            r.price == price,
            r.quantity == quantity,
            r.filled_quantity == 0,
            r.status == OrderStatus::Open,
            r.wf(),
    {
        Order {
            id: new_uuid(),
            side,
            order_type: OrderType::Limit,
            price,
            quantity,
            filled_quantity: 0,
            status: OrderStatus::Open,
            timestamp: now_millis(),
        }
    }

    pub fn remaining_quantity(&self) -> (r: Quantity)
        requires
            self.filled_quantity <= self.quantity,
        ensures
            r == self.rem(),
    {
        self.quantity - self.filled_quantity
    }

    pub fn is_complete(&self) -> (r: bool)
        ensures
            r == (self.filled_quantity >= self.quantity),
    {
        self.filled_quantity >= self.quantity
    }

    /// Records that `quantity` more units traded.
    pub fn fill(&mut self, quantity: Quantity)
        requires
            old(self).filled_quantity + quantity <= old(self).quantity,
        ensures
            *final(self) == old(self).filled_by(quantity as int),
            old(self).wf() && quantity > 0 ==> final(self).wf(),
    {
        self.filled_quantity = self.filled_quantity + quantity;
        if self.is_complete() {
            self.status = OrderStatus::Filled;
        } else {
            self.status = OrderStatus::PartiallyFilled;
        }
    }
}

/// What a trade records, without its identifier and time:
/// (buy order id, sell order id, price, quantity).
pub type TradeTerms = (OrderId, OrderId, Price, Quantity);

#[derive(Debug, Clone, Copy)]
pub struct Trade {
    pub id: TradeId,
    pub buy_order_id: OrderId,
    pub sell_order_id: OrderId,
    pub price: Price,
    pub quantity: Quantity,
    pub timestamp: Timestamp,
}

impl Trade {
    pub open spec fn terms(self) -> TradeTerms {
        (self.buy_order_id, self.sell_order_id, self.price, self.quantity)
    }

    /// A trade with a new identifier and the current time.
    pub fn new(buy_order_id: OrderId, sell_order_id: OrderId, price: Price, quantity: Quantity) -> (r:
        Trade)
        ensures
            r.buy_order_id == buy_order_id,
            r.sell_order_id == sell_order_id,
            r.price == price,
            r.quantity == quantity,
    {
        Trade { id: new_uuid(), buy_order_id, sell_order_id, price, quantity, timestamp: now_millis() }
    }
}

/// Relies on uuid::Uuid::new_v4 (with Uuid::as_u128): a random identifier. Nothing is
/// promised of its value.
#[verifier::external_body]
fn new_uuid() -> (r: u128) {
    uuid::Uuid::new_v4().as_u128()
}

/// Relies on chrono::Utc::now (with DateTime::timestamp_millis): the current time.
/// Nothing is promised of its value.
#[verifier::external_body]
fn now_millis() -> (r: i64) {
    chrono::Utc::now().timestamp_millis()
}

} // verus!
