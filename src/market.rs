//! The market façade: a spread policy in front of the book, and the trade log.
use crate::order::{Order, OrderId, OrderSide, OrderStatus, Price, Quantity, Trade};
use crate::order_book::{match_spec, opposite, spread_bp, spread_bp_exec, top_levels, BookModel, OrderBook};
use vstd::prelude::*;

verus! {

/// Why an order was not placed.
#[derive(Debug, Clone, Copy, PartialEq, Eq, Structural)]
pub enum PlaceError {
    /// The order would rest too close to the best opposite price. Both values are in
    /// hundredths of a percent; the spread is rounded down.
    SpreadTooNarrow { spread_bp: u64, minimum_bp: u64 },
    /// The freshly drawn identifier is already taken by an order of the book.
    DuplicateId,
}

/// The best price of the side opposite to `side`, if that side has orders.
pub open spec fn best_opposite(b: BookModel, side: OrderSide) -> Option<Price> {
    match side {
        OrderSide::Buy => if b.asks.len() > 0 {
            Some(b.asks[0].price)
        } else {
            None
        },
        OrderSide::Sell => if b.bids.len() > 0 {
            Some(b.bids[0].price)
        } else {
            None
        },
    }
}

/// An order of `side` at `price` would trade at once against a resting order at `best`.
pub open spec fn executes_against(side: OrderSide, price: Price, best: Price) -> bool {
    match side {
        OrderSide::Buy => price >= best,
        OrderSide::Sell => price <= best,
    }
}

/// The spread that an order of `side` at `price` would open against `best`, in
/// hundredths of a percent, rounded down.
pub open spec fn implied_spread(side: OrderSide, price: Price, best: Price) -> int {
    match side {
        OrderSide::Buy => spread_bp(price as int, best as int),
        OrderSide::Sell => spread_bp(best as int, price as int),
    }
}

/// The spread policy: an order is accepted when the opposite side is empty, when it
/// would trade at once, or when the spread it would open is at least the minimum.
pub open spec fn spread_accepts(b: BookModel, side: OrderSide, price: Price, minimum_bp: u64) -> bool {
    match best_opposite(b, side) {
        None => true,
        Some(best) => executes_against(side, price, best) || implied_spread(side, price, best)
            >= minimum_bp,
    }
}

/// The spread policy: a new order that the policy accepts and that would not trade
/// at once opens a spread, against the opposite best price that was there before,
/// of at least the minimum. It trades with nothing, leaves the opposite side as it
/// was, and where it becomes the best of its side the book's spread is that spread.
pub proof fn lemma_spread_policy(b: BookModel, o: Order, minimum_bp: u64, best: Price)
    requires
        b.wf(),
        o.wf(),
        o.status != OrderStatus::Cancelled,
        !b.orders.contains_key(o.id),
        spread_accepts(b, o.side, o.price, minimum_bp),
        best_opposite(b, o.side) == Some(best),
        !executes_against(o.side, o.price, best),
    ensures
        implied_spread(o.side, o.price, best) >= minimum_bp,
        b.fills_of(o).len() == 0,
        b.after_add(o).queue(opposite(o.side)) == b.queue(opposite(o.side)),
        ({
            let a = b.after_add(o);
            a.queue(o.side).len() > 0 && a.queue(o.side)[0].price == o.price ==> spread_bp(
                a.bids[0].price as int,
                a.asks[0].price as int,
            ) >= minimum_bp
        }),
{
    let out = match_spec(o, b.queue(opposite(o.side)));
    assert(out.opposite == b.queue(opposite(o.side)));
}

/// The market as mathematics.
pub struct MarketModel {
    pub book: BookModel,
    pub trades: Seq<Trade>,
    pub minimum_spread_bp: u64,
}

impl MarketModel {
    /// What placing the new order `o` does: `next` is the market afterwards and `r`
    /// the result.
    pub open spec fn place_step(self, o: Order, next: MarketModel, r: Result<OrderId, PlaceError>) -> bool {
        let fills = self.book.fills_of(o);
        if !spread_accepts(self.book, o.side, o.price, self.minimum_spread_bp) {
            let best = best_opposite(self.book, o.side).unwrap();
            &&& next == self
            &&& r == Err::<OrderId, PlaceError>(
                PlaceError::SpreadTooNarrow {
                    spread_bp: implied_spread(o.side, o.price, best) as u64,
                    minimum_bp: self.minimum_spread_bp,
                },
            )
        } else if self.book.orders.contains_key(o.id) {
            next == self && r == Err::<OrderId, PlaceError>(PlaceError::DuplicateId)
        } else {
            &&& next.book == self.book.after_add(o)
            &&& next.minimum_spread_bp == self.minimum_spread_bp
            &&& next.trades.len() == self.trades.len() + fills.len()
            &&& next.trades.take(self.trades.len() as int) == self.trades
            &&& forall|k: int|
                0 <= k < fills.len() ==> #[trigger] next.trades[self.trades.len() + k].terms()
                    == fills[k]
            &&& r == Ok::<OrderId, PlaceError>(o.id)
        }
    }
}

pub struct MarketSimulator {
    order_book: OrderBook,
    /// Every trade, oldest first.
    trades: Vec<Trade>,
    /// The least spread, in hundredths of a percent, that a new order may open.
    minimum_spread_bp: u64,
}

impl View for MarketSimulator {
    type V = MarketModel;

    closed spec fn view(&self) -> MarketModel {
        MarketModel {
            book: self.order_book@,
            trades: self.trades@,
            minimum_spread_bp: self.minimum_spread_bp,
        }
    }
}

impl MarketSimulator {
    /// The façade's invariant: the book's.
    pub open spec fn wf(&self) -> bool {
        self@.book.wf()
    }

    /// An empty market whose policy asks for a spread of at least `minimum_spread_bp`
    /// hundredths of a percent.
    pub fn new(minimum_spread_bp: u64) -> (r: MarketSimulator)
        ensures
            r.wf(),
            r@.book == (BookModel { bids: seq![], asks: seq![], orders: Map::empty() }),
            r@.trades == Seq::<Trade>::empty(),
            r@.minimum_spread_bp == minimum_spread_bp,
    {
        MarketSimulator { order_book: OrderBook::new(), trades: Vec::new(), minimum_spread_bp }
    }

    /// Places a new limit order: the spread policy runs first; on acceptance the
    /// order goes to the book and its trades to the log.
    pub fn place_order(&mut self, side: OrderSide, price: Price, quantity: Quantity) -> (r: Result<
        OrderId,
        PlaceError,
    >)
        requires
            old(self).wf(),
        ensures
            final(self).wf(),
            exists|o: Order|
                {
                    &&& o.side == side
                    &&& o.price == price
                    &&& o.quantity == quantity
                    &&& o.filled_quantity == 0
                    &&& o.status == OrderStatus::Open
                    &&& #[trigger] old(self)@.place_step(o, final(self)@, r)
                },
    {
        let order = Order::new(side, price, quantity);
        self.place_new_order(order)
    }

    /// Places `order`, which is new: the spread policy runs first; on acceptance
    /// the order goes to the book and its trades to the log.
    pub fn place_new_order(&mut self, order: Order) -> (r: Result<OrderId, PlaceError>)
        requires
            old(self).wf(),
            order.wf(),
            order.status != OrderStatus::Cancelled,
        ensures
            final(self).wf(),
            old(self)@.place_step(order, final(self)@, r),
    {
        if let Err(e) = self.validate_order_spread(order.side, order.price) {
            return Err(e);
        }
        if self.order_book.get_order(&order.id).is_some() {
            return Err(PlaceError::DuplicateId);
        }
        let ghost before = self.trades@;
        let mut new_trades = self.order_book.add_order(order);
        let ghost added = new_trades@;
        self.trades.append(&mut new_trades);
        proof {
            let fills = old(self)@.book.fills_of(order);
            assert(self.trades@.take(before.len() as int) =~= before);
            assert forall|k: int| 0 <= k < fills.len() implies #[trigger] self.trades@[before.len() + k].terms()
                == fills[k] by {
                assert(added.map_values(|t: Trade| t.terms())[k] == fills[k]);
                assert(self.trades@[before.len() + k] == added[k]);
            }
        }
        Ok(order.id)
    }

    pub fn cancel_order(&mut self, order_id: OrderId) -> (r: Option<Order>)
        requires
            old(self).wf(),
        ensures
            final(self).wf(),
            final(self)@.trades == old(self)@.trades,
            final(self)@.minimum_spread_bp == old(self)@.minimum_spread_bp,
            r.is_some() <==> old(self)@.book.is_resting(order_id),
            r.is_some() <==> old(self)@.book.orders.contains_key(order_id)
                && old(self)@.book.orders[order_id].is_live(),
            r.is_some() ==> r == Some(old(self)@.book.orders[order_id].cancelled())
                && final(self)@.book == old(self)@.book.after_cancel(order_id),
            r.is_none() ==> final(self)@ == old(self)@,
    {
        self.order_book.cancel_order(order_id)
    }

    pub fn get_order(&self, order_id: &OrderId) -> (r: Option<&Order>)
        ensures
            match r {
                Some(o) => self@.book.orders.contains_key(*order_id) && *o
                    == self@.book.orders[*order_id],
                None => !self@.book.orders.contains_key(*order_id),
            },
    {
        self.order_book.get_order(order_id)
    }

    pub fn get_best_bid(&self) -> (r: Option<Price>)
        requires
            self.wf(),
        ensures
            r == (if self@.book.bids.len() > 0 {
                Some(self@.book.bids[0].price)
            } else {
                None
            }),
    {
        self.order_book.get_best_bid()
    }

    pub fn get_best_ask(&self) -> (r: Option<Price>)
        requires
            self.wf(),
        ensures
            r == (if self@.book.asks.len() > 0 {
                Some(self@.book.asks[0].price)
            } else {
                None
            }),
    {
        self.order_book.get_best_ask()
    }

    pub fn get_spread(&self) -> (r: Option<Price>)
        requires
            self.wf(),
        ensures
            r == (if self@.book.bids.len() > 0 && self@.book.asks.len() > 0 {
                Some((self@.book.asks[0].price - self@.book.bids[0].price) as u64)
            } else {
                None
            }),
    {
        self.order_book.get_spread()
    }

    /// The spread in hundredths of a percent, rounded down.
    pub fn get_spread_percentage(&self) -> (r: Option<u64>)
        requires
            self.wf(),
        ensures
            r == (if self@.book.bids.len() > 0 && self@.book.asks.len() > 0 {
                Some(
                    spread_bp(self@.book.bids[0].price as int, self@.book.asks[0].price as int) as u64,
                )
            } else {
                None
            }),
    {
        self.order_book.get_spread_percentage()
    }

    pub fn get_market_depth(&self, levels: usize) -> (r: (Vec<(Price, u128)>, Vec<(Price, u128)>))
        requires
            self.wf(),
        ensures
            r.0@.len() == top_levels(self@.book.bids, levels as int).len(),
            forall|k: int|
                0 <= k < r.0@.len() ==> (#[trigger] r.0@[k]).0 == top_levels(self@.book.bids, levels as int)[k].0
                    && r.0@[k].1 == top_levels(self@.book.bids, levels as int)[k].1,
            r.1@.len() == top_levels(self@.book.asks, levels as int).len(),
            forall|k: int|
                0 <= k < r.1@.len() ==> (#[trigger] r.1@[k]).0 == top_levels(self@.book.asks, levels as int)[k].0
                    && r.1@[k].1 == top_levels(self@.book.asks, levels as int)[k].1,
    {
        self.order_book.get_market_depth(levels)
    }

    /// The last `count` trades, newest first.
    pub fn get_recent_trades(&self, count: usize) -> (r: Vec<Trade>)
        ensures
            r@.len() == if count < self@.trades.len() {
                count as int
            } else {
                self@.trades.len() as int
            },
            forall|k: int| 0 <= k < r@.len() ==> #[trigger] r@[k] == self@.trades[self@.trades.len() - 1 - k],
    {
        let mut out: Vec<Trade> = Vec::new();
        let n = self.trades.len();
        while out.len() < count && out.len() < n
            invariant
                n == self@.trades.len(),
                out@.len() <= n,
                out@.len() <= count,
                forall|k: int| 0 <= k < out@.len() ==> #[trigger] out@[k] == self@.trades[n - 1 - k],
            decreases n - out@.len(),
        {
            let t = self.trades[n - 1 - out.len()];
            out.push(t);
        }
        out
    }

    /// Every trade, oldest first.
    pub fn get_all_trades(&self) -> (r: &Vec<Trade>)
        ensures
            r@ == self@.trades,
    {
        &self.trades
    }

    /// The spread policy on the current book.
    fn validate_order_spread(&self, side: OrderSide, price: Price) -> (r: Result<(), PlaceError>)
        requires
            self.wf(),
        ensures
            r.is_ok() == spread_accepts(self@.book, side, price, self@.minimum_spread_bp),
            r.is_err() ==> r == Err::<(), PlaceError>(
                PlaceError::SpreadTooNarrow {
                    spread_bp: implied_spread(
                        side,
                        price,
                        best_opposite(self@.book, side).unwrap(),
                    ) as u64,
                    minimum_bp: self@.minimum_spread_bp,
                },
            ),
    {
        match side {
            OrderSide::Buy => {
                if let Some(ask) = self.order_book.get_best_ask() {
                    if price >= ask {
                        return Ok(());
                    }
                    let spread = spread_bp_exec(price, ask);
                    if spread < self.minimum_spread_bp {
                        return Err(
                            PlaceError::SpreadTooNarrow {
                                spread_bp: spread,
                                minimum_bp: self.minimum_spread_bp,
                            },
                        );
                    }
                }
            },
            OrderSide::Sell => {
                if let Some(bid) = self.order_book.get_best_bid() {
                    if price <= bid {
                        return Ok(());
                    }
                    let spread = spread_bp_exec(bid, price);
                    if spread < self.minimum_spread_bp {
                        return Err(
                            PlaceError::SpreadTooNarrow {
                                spread_bp: spread,
                                minimum_bp: self.minimum_spread_bp,
                            },
                        );
                    }
                }
            },
        }
        Ok(())
    }
}

} // verus!
