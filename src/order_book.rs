//! The two-sided book: resting orders in price-time priority, an index of every
//! order by identifier, matching, cancellation and market-state queries.
use crate::order::{fill_status, Order, OrderId, OrderSide, OrderStatus, Price, Trade, TradeTerms};
use std::collections::HashMap;
use vstd::prelude::*;

verus! {

broadcast use vstd::std_specs::hash::group_hash_axioms;

/// The other side of the market.
pub open spec fn opposite(side: OrderSide) -> OrderSide {
    match side {
        OrderSide::Buy => OrderSide::Sell,
        OrderSide::Sell => OrderSide::Buy,
    }
}

/// For a queue of `side`, price `a` has priority at least as high as price `b`:
/// higher is better for bids, lower is better for asks.
pub open spec fn at_least_as_good(side: OrderSide, a: Price, b: Price) -> bool {
    match side {
        OrderSide::Buy => a >= b,
        OrderSide::Sell => a <= b,
    }
}

/// An incoming order `o` may trade with a resting order at price `p`.
pub open spec fn crosses(o: Order, p: Price) -> bool {
    match o.side {
        OrderSide::Buy => o.price >= p,
        OrderSide::Sell => o.price <= p,
    }
}

/// The terms of a trade of `q` units between incoming `o` and resting `r`, at the
/// resting order's price.
pub open spec fn fill_terms(o: Order, r: Order, q: int) -> TradeTerms {
    if o.side == OrderSide::Buy {
        (o.id, r.id, r.price, q as u64)
    } else {
        (r.id, o.id, r.price, q as u64)
    }
}

/// What matching an incoming order against a queue of the opposite side yields.
pub struct MatchOutcome {
    /// The incoming order after its fills.
    pub incoming: Order,
    /// The opposite queue afterwards.
    pub opposite: Seq<Order>,
    /// The trades, in the order they happen.
    pub fills: Seq<TradeTerms>,
    /// Each resting order touched, in its state after its fill.
    pub touched: Seq<Order>,
}

/// The quantity of a trade: the smaller of the two remaining quantities.
pub open spec fn trade_qty(o: Order, r: Order) -> int {
    if o.rem() <= r.rem() {
        o.rem()
    } else {
        r.rem()
    }
}

/// The queue after its front order became `r2`: the front leaves once complete.
pub open spec fn after_front(queue: Seq<Order>, r2: Order) -> Seq<Order> {
    if r2.rem() <= 0 {
        queue.drop_first()
    } else {
        queue.update(0, r2)
    }
}

/// Matching by price-time priority: the queue's front is taken first while the
/// incoming order has units left and crosses it; each trade is for the smaller of
/// the two remaining quantities, at the resting order's price; a resting order that
/// is complete leaves the queue.
pub open spec fn match_spec(o: Order, queue: Seq<Order>) -> MatchOutcome
    decreases queue.len(), o.rem(),
{
    if o.rem() <= 0 || queue.len() == 0 || !crosses(o, queue[0].price) {
        MatchOutcome { incoming: o, opposite: queue, fills: seq![], touched: seq![] }
    } else {
        let r = queue[0];
        let q = trade_qty(o, r);
        let o2 = o.filled_by(q);
        let r2 = r.filled_by(q);
        let rest = after_front(queue, r2);
        let next = match_spec(o2, rest);
        MatchOutcome {
            incoming: next.incoming,
            opposite: next.opposite,
            fills: seq![fill_terms(o, r, q)] + next.fills,
            touched: seq![r2] + next.touched,
        }
    }
}

/// The index after recording each order of `s`, in turn, under its identifier.
pub open spec fn record_all(m: Map<OrderId, Order>, s: Seq<Order>) -> Map<OrderId, Order>
    decreases s.len(),
{
    if s.len() == 0 {
        m
    } else {
        record_all(m.insert(s[0].id, s[0]), s.drop_first())
    }
}

/// `i` is where an order at price `p` joins a queue of `side`: after every order
/// at an equal or better price, before every worse one.
pub open spec fn is_rest_slot(s: Seq<Order>, side: OrderSide, p: Price, i: int) -> bool {
    &&& 0 <= i <= s.len()
    &&& forall|j: int| 0 <= j < i ==> at_least_as_good(side, #[trigger] s[j].price, p)
    &&& forall|j: int| i <= j < s.len() ==> !at_least_as_good(side, #[trigger] s[j].price, p)
}

pub open spec fn rest_slot(s: Seq<Order>, side: OrderSide, p: Price) -> int {
    choose|i: int| is_rest_slot(s, side, p, i)
}

/// The queue with `o` joined at the tail of its price.
pub open spec fn rest_in(s: Seq<Order>, o: Order) -> Seq<Order> {
    s.insert(rest_slot(s, o.side, o.price), o)
}

/// The queue is in priority order for `side`.
pub open spec fn sorted_for(s: Seq<Order>, side: OrderSide) -> bool {
    forall|i: int, j: int|
        0 <= i < j < s.len() ==> at_least_as_good(side, #[trigger] s[i].price, #[trigger] s[j].price)
}

/// No identifier occurs twice in the queue.
pub open spec fn distinct_ids(s: Seq<Order>) -> bool {
    forall|i: int, j: int| 0 <= i < j < s.len() ==> #[trigger] s[i].id != #[trigger] s[j].id
}

/// No identifier occurs in both queues.
pub open spec fn disjoint_ids(a: Seq<Order>, b: Seq<Order>) -> bool {
    forall|i: int, j: int| 0 <= i < a.len() && 0 <= j < b.len() ==> #[trigger] a[i].id != #[trigger] b[j].id
}

/// The best prices of the two sides, `own` of `side` and `opp` of the other, do
/// not cross.
pub open spec fn apart(side: OrderSide, own: Price, opp: Price) -> bool {
    match side {
        OrderSide::Buy => own < opp,
        OrderSide::Sell => own > opp,
    }
}

/// `id` occurs in the queue.
pub open spec fn in_queue(s: Seq<Order>, id: OrderId) -> bool {
    exists|i: int| rests_at(s, id, i)
}

/// `id` rests at position `i` of the queue.
pub open spec fn rests_at(s: Seq<Order>, id: OrderId, i: int) -> bool {
    0 <= i < s.len() && s[i].id == id
}

/// The queue without the order `id`.
pub open spec fn without_id(s: Seq<Order>, id: OrderId) -> Seq<Order> {
    if exists|i: int| rests_at(s, id, i) {
        s.remove(choose|i: int| rests_at(s, id, i))
    } else {
        s
    }
}

/// A queue of `side` is consistent with the index `m`.
pub open spec fn queue_ok(s: Seq<Order>, side: OrderSide, m: Map<OrderId, Order>) -> bool {
    &&& forall|i: int|
        0 <= i < s.len() ==> {
            &&& (#[trigger] s[i]).side == side
            &&& s[i].is_live()
            &&& m.contains_key(s[i].id)
            &&& m[s[i].id] == s[i]
        }
    &&& sorted_for(s, side)
    &&& distinct_ids(s)
}

/// The book as mathematics: the two queues, best first, and the index.
pub struct BookModel {
    pub bids: Seq<Order>,
    pub asks: Seq<Order>,
    pub orders: Map<OrderId, Order>,
}

impl BookModel {
    pub open spec fn queue(self, side: OrderSide) -> Seq<Order> {
        match side {
            OrderSide::Buy => self.bids,
            OrderSide::Sell => self.asks,
        }
    }

    /// The book's invariant: each queue is in priority order, holds live orders that
    /// agree with the index, no identifier rests twice, every indexed order obeys its
    /// lifecycle rules, and the book is not crossed.
    pub open spec fn wf(self) -> bool {
        &&& queue_ok(self.bids, OrderSide::Buy, self.orders)
        &&& queue_ok(self.asks, OrderSide::Sell, self.orders)
        &&& disjoint_ids(self.bids, self.asks)
        &&& forall|id: OrderId| #[trigger]
            self.orders.contains_key(id) ==> self.orders[id].wf() && self.orders[id].id == id
        &&& self.bids.len() > 0 && self.asks.len() > 0 ==> self.bids[0].price < self.asks[0].price
        &&& self.live_orders_rest()
    }

    /// Every indexed order that is live rests in the queue of its side.
    pub open spec fn live_orders_rest(self) -> bool {
        forall|id: OrderId| #[trigger]
            self.orders.contains_key(id) && self.orders[id].is_live() ==> in_queue(
                self.queue(self.orders[id].side),
                id,
            )
    }

    /// The invariant, read from the point of view of an order of `side`.
    pub open spec fn wf_for(self, side: OrderSide) -> bool {
        let own = self.queue(side);
        let opp = self.queue(opposite(side));
        &&& queue_ok(own, side, self.orders)
        &&& queue_ok(opp, opposite(side), self.orders)
        &&& disjoint_ids(own, opp)
        &&& forall|id: OrderId| #[trigger]
            self.orders.contains_key(id) ==> self.orders[id].wf() && self.orders[id].id == id
        &&& own.len() > 0 && opp.len() > 0 ==> apart(side, own[0].price, opp[0].price)
        &&& self.live_orders_rest()
    }

    /// What adding `o` does: it is matched against the opposite queue, and any
    /// remainder rests on its own side; the index records every touched order and `o`.
    pub open spec fn after_add(self, o: Order) -> BookModel {
        let out = match_spec(o, self.queue(opposite(o.side)));
        let own = if out.incoming.rem() > 0 {
            rest_in(self.queue(o.side), out.incoming)
        } else {
            self.queue(o.side)
        };
        let orders = record_all(self.orders, out.touched).insert(o.id, out.incoming);
        match o.side {
            OrderSide::Buy => BookModel { bids: own, asks: out.opposite, orders },
            OrderSide::Sell => BookModel { bids: out.opposite, asks: own, orders },
        }
    }

    /// The trades that adding `o` produces.
    pub open spec fn fills_of(self, o: Order) -> Seq<TradeTerms> {
        match_spec(o, self.queue(opposite(o.side))).fills
    }

    /// `id` rests in one of the queues.
    pub open spec fn is_resting(self, id: OrderId) -> bool {
        (exists|i: int| rests_at(self.bids, id, i)) || (exists|i: int| rests_at(self.asks, id, i))
    }

    /// What cancelling the resting order `id` does.
    pub open spec fn after_cancel(self, id: OrderId) -> BookModel {
        BookModel {
            bids: without_id(self.bids, id),
            asks: without_id(self.asks, id),
            orders: self.orders.insert(id, self.orders[id].cancelled()),
        }
    }
}

pub struct OrderBook {
    /// Resting buy orders, highest price first, earliest first within a price.
    bids: Vec<Order>,
    /// Resting sell orders, lowest price first, earliest first within a price.
    asks: Vec<Order>,
    /// Every order ever added, in its latest state.
    orders: HashMap<OrderId, Order>,
}

impl View for OrderBook {
    type V = BookModel;

    closed spec fn view(&self) -> BookModel {
        BookModel { bids: self.bids@, asks: self.asks@, orders: self.orders@ }
    }
}

fn crosses_exec(o: &Order, p: Price) -> (r: bool)
    ensures
        r == crosses(*o, p),
{
    match o.side {
        OrderSide::Buy => o.price >= p,
        OrderSide::Sell => o.price <= p,
    }
}

fn at_least_as_good_exec(side: OrderSide, a: Price, b: Price) -> (r: bool)
    ensures
        r == at_least_as_good(side, a, b),
{
    match side {
        OrderSide::Buy => a >= b,
        OrderSide::Sell => a <= b,
    }
}

proof fn lemma_rest_slot_unique(s: Seq<Order>, side: OrderSide, p: Price, i: int, k: int)
    requires
        is_rest_slot(s, side, p, i),
        is_rest_slot(s, side, p, k),
    ensures
        i == k,
{
    if i < k {
        assert(at_least_as_good(side, s[i].price, p));
    } else if k < i {
        assert(at_least_as_good(side, s[k].price, p));
    }
}

/// Matches `incoming` against the opposite queue, recording touched orders in the
/// index; returns the incoming order after its fills and the trades.
fn match_incoming(
    incoming: Order,
    opposite_queue: &mut Vec<Order>,
    orders: &mut HashMap<OrderId, Order>,
) -> (r: (Order, Vec<Trade>))
    requires
        incoming.wf(),
        forall|i: int|
            0 <= i < old(opposite_queue)@.len() ==> (#[trigger] old(opposite_queue)@[i]).wf()
                && old(opposite_queue)@[i].rem() > 0,
    ensures
        ({
            let out = match_spec(incoming, old(opposite_queue)@);
            &&& r.0 == out.incoming
            &&& final(opposite_queue)@ == out.opposite
            &&& r.1@.map_values(|t: Trade| t.terms()) == out.fills
            &&& final(orders)@ == record_all(old(orders)@, out.touched)
        }),
{
    let ghost target = match_spec(incoming, opposite_queue@);
    let ghost orders0 = orders@;
    let mut o = incoming;
    let mut trades: Vec<Trade> = Vec::new();
    proof {
        assert(trades@.map_values(|t: Trade| t.terms()) + target.fills =~= target.fills);
    }
    while opposite_queue.len() > 0 && o.remaining_quantity() > 0 && crosses_exec(
        &o,
        opposite_queue[0].price,
    )
        invariant
            o.wf(),
            forall|i: int|
                0 <= i < opposite_queue@.len() ==> (#[trigger] opposite_queue@[i]).wf()
                    && opposite_queue@[i].rem() > 0,
            match_spec(o, opposite_queue@).incoming == target.incoming,
            match_spec(o, opposite_queue@).opposite == target.opposite,
            trades@.map_values(|t: Trade| t.terms()) + match_spec(o, opposite_queue@).fills
                == target.fills,
            record_all(orders@, match_spec(o, opposite_queue@).touched) == record_all(
                orders0,
                target.touched,
            ),
        decreases opposite_queue@.len() + o.rem(),
    {
        let ghost o_before = o;
        let ghost q_before = opposite_queue@;
        let ghost step = match_spec(o, opposite_queue@);
        let mut resting = opposite_queue[0];
        let incoming_left = o.remaining_quantity();
        let resting_left = resting.remaining_quantity();
        let q = if incoming_left <= resting_left {
            incoming_left
        } else {
            resting_left
        };
        let trade = match o.side {
            OrderSide::Buy => Trade::new(o.id, resting.id, resting.price, q),
            OrderSide::Sell => Trade::new(resting.id, o.id, resting.price, q),
        };
        let ghost trades_before = trades@;
        trades.push(trade);
        o.fill(q);
        resting.fill(q);
        orders.insert(resting.id, resting);
        if resting.is_complete() {
            opposite_queue.remove(0);
        } else {
            opposite_queue.remove(0);
            opposite_queue.insert(0, resting);
        }
        proof {
            let rest = opposite_queue@;
            assert(rest =~= after_front(q_before, resting));
            let next = match_spec(o, rest);
            assert(step.fills == seq![fill_terms(o_before, q_before[0], q as int)] + next.fills);
            assert(trades@.map_values(|t: Trade| t.terms()) =~= trades_before.map_values(
                |t: Trade| t.terms(),
            ).push(trade.terms()));
            assert(trade.terms() == fill_terms(o_before, q_before[0], q as int));
            assert(trades@.map_values(|t: Trade| t.terms()) + next.fills =~= trades_before.map_values(
                |t: Trade| t.terms(),
            ) + step.fills);
            let touched = seq![resting] + next.touched;
            assert(touched[0] == resting);
            assert(touched.drop_first() =~= next.touched);
        }
    }
    (o, trades)
}

proof fn lemma_wf_for(b: BookModel, side: OrderSide)
    ensures
        b.wf() <==> b.wf_for(side),
{
}

proof fn lemma_rest_slot_exists(s: Seq<Order>, side: OrderSide, p: Price)
    requires
        sorted_for(s, side),
    ensures
        is_rest_slot(s, side, p, rest_slot(s, side, p)),
    decreases s.len(),
{
    if s.len() == 0 {
        assert(is_rest_slot(s, side, p, 0));
    } else {
        let init = s.drop_last();
        assert(sorted_for(init, side));
        lemma_rest_slot_exists(init, side, p);
        let k = rest_slot(init, side, p);
        let n = s.len() - 1;
        assert forall|j: int| 0 <= j < k implies at_least_as_good(side, #[trigger] s[j].price, p) by {
            assert(init[j] == s[j]);
        }
        if k < n {
            assert(at_least_as_good(side, s[k].price, s[n].price));
            assert(!at_least_as_good(side, init[k].price, p));
            assert forall|j: int| k <= j < s.len() implies !at_least_as_good(
                side,
                #[trigger] s[j].price,
                p,
            ) by {
                if j < n {
                    assert(init[j] == s[j]);
                }
            }
            assert(is_rest_slot(s, side, p, k));
        } else if at_least_as_good(side, s[n].price, p) {
            assert(is_rest_slot(s, side, p, s.len() as int));
        } else {
            assert(is_rest_slot(s, side, p, n));
        }
    }
}

/// One step of matching keeps what the recursion needs.
proof fn lemma_match_step(o: Order, queue: Seq<Order>, m: Map<OrderId, Order>)
    requires
        o.wf(),
        o.status != OrderStatus::Cancelled,
        queue_ok(queue, opposite(o.side), m),
        !in_queue(queue, o.id),
        forall|id: OrderId| #[trigger] m.contains_key(id) ==> m[id].wf() && m[id].id == id,
        o.rem() > 0,
        queue.len() > 0,
        crosses(o, queue[0].price),
    ensures
        ({
            let side = opposite(o.side);
            let r = queue[0];
            let q = trade_qty(o, r);
            let o2 = o.filled_by(q);
            let r2 = r.filled_by(q);
            let rest = after_front(queue, r2);
            let m1 = m.insert(r.id, r2);
            &&& q > 0
            &&& o2.wf()
            &&& o2.status != OrderStatus::Cancelled
            &&& queue_ok(rest, side, m1)
            &&& !in_queue(rest, o.id)
            &&& forall|id: OrderId| #[trigger] m1.contains_key(id) ==> m1[id].wf() && m1[id].id == id
            &&& forall|id: OrderId| in_queue(rest, id) ==> in_queue(queue, id)
            &&& m1.dom() == m.dom()
            &&& rests_at(queue, r.id, 0)
            &&& rest.len() > 0 ==> at_least_as_good(side, queue[0].price, rest[0].price)
            &&& r2.rem() <= 0 ==> !in_queue(rest, r.id)
            &&& r2.rem() > 0 ==> rests_at(rest, r.id, 0)
            &&& forall|id: OrderId| #[trigger] in_queue(queue, id) && id != r.id ==> in_queue(rest, id)
        }),
{
    let side = opposite(o.side);
        let r = queue[0];
        let q = trade_qty(o, r);
        let o2 = o.filled_by(q);
        let r2 = r.filled_by(q);
        let rest = after_front(queue, r2);
        let m1 = m.insert(r.id, r2);
        assert(m.contains_key(r.id));
        assert forall|i: int| 0 <= i < rest.len() implies {
            &&& (#[trigger] rest[i]).side == side
            &&& rest[i].is_live()
            &&& m1.contains_key(rest[i].id)
            &&& m1[rest[i].id] == rest[i]
        } by {
            if r2.rem() <= 0 {
                assert(rest[i] == queue[i + 1]);
                assert(queue[0].id != queue[i + 1].id);
            } else if i > 0 {
                assert(queue[0].id != queue[i].id);
            }
        }
        assert forall|i: int, j: int| 0 <= i < j < rest.len() implies at_least_as_good(
            side,
            #[trigger] rest[i].price,
            #[trigger] rest[j].price,
        ) by {
            if r2.rem() <= 0 {
                assert(at_least_as_good(side, queue[i + 1].price, queue[j + 1].price));
            } else {
                assert(at_least_as_good(side, queue[i].price, queue[j].price));
            }
        }
        assert forall|i: int, j: int| 0 <= i < j < rest.len() implies #[trigger] rest[i].id
            != #[trigger] rest[j].id by {
            if r2.rem() <= 0 {
                assert(queue[i + 1].id != queue[j + 1].id);
            } else {
                assert(queue[i].id != queue[j].id);
            }
        }
        assert forall|id: OrderId| in_queue(rest, id) implies in_queue(queue, id) by {
            let i = choose|i: int| rests_at(rest, id, i);
            if r2.rem() <= 0 {
                assert(rests_at(queue, id, i + 1));
            } else {
                assert(rests_at(queue, id, i));
            }
        }
        assert forall|id: OrderId| #[trigger] m1.contains_key(id) implies m1[id].wf()
            && m1[id].id == id by {}
        if rest.len() > 0 {
            if r2.rem() <= 0 {
                assert(at_least_as_good(side, queue[0].price, queue[1].price));
            }
        }
        if r2.rem() <= 0 {
            if in_queue(rest, r.id) {
                let j = choose|j: int| rests_at(rest, r.id, j);
                assert(queue[0].id != queue[j + 1].id);
            }
        }
        assert forall|id: OrderId| #[trigger] in_queue(queue, id) && id != r.id implies in_queue(rest, id) by {
            let i = choose|i: int| rests_at(queue, id, i);
            if r2.rem() <= 0 {
                assert(rests_at(rest, id, i - 1));
            } else {
                assert(rests_at(rest, id, i));
            }
        }
}

/// Matching keeps the opposite queue consistent with the index, leaves the
/// incoming order obeying its lifecycle rules, and stops only where it must.
proof fn lemma_match_keeps(o: Order, queue: Seq<Order>, m: Map<OrderId, Order>)
    requires
        o.wf(),
        o.status != OrderStatus::Cancelled,
        queue_ok(queue, opposite(o.side), m),
        !in_queue(queue, o.id),
        forall|id: OrderId| #[trigger] m.contains_key(id) ==> m[id].wf() && m[id].id == id,
    ensures
        ({
            let out = match_spec(o, queue);
            let m2 = record_all(m, out.touched);
            &&& out.incoming.id == o.id
            &&& out.incoming.side == o.side
            &&& out.incoming.price == o.price
            &&& out.incoming.quantity == o.quantity
            &&& out.incoming.wf()
            &&& out.incoming.status != OrderStatus::Cancelled
            &&& out.incoming.rem() <= 0 || out.opposite.len() == 0 || !crosses(
                out.incoming,
                out.opposite[0].price,
            )
            &&& queue_ok(out.opposite, opposite(o.side), m2)
            &&& m2.dom() == m.dom()
            &&& forall|id: OrderId| #[trigger]
                m2.contains_key(id) ==> m2[id].wf() && m2[id].id == id
            &&& forall|id: OrderId| !in_queue(queue, id) ==> #[trigger] m2[id] == m[id]
            &&& forall|j: int|
                0 <= j < out.opposite.len() ==> in_queue(queue, #[trigger] out.opposite[j].id)
            &&& forall|j: int|
                0 <= j < out.opposite.len() ==> at_least_as_good(
                    opposite(o.side),
                    queue[0].price,
                    #[trigger] out.opposite[j].price,
                )
            &&& forall|id: OrderId| #[trigger]
                in_queue(queue, id) && m2[id].is_live() ==> in_queue(out.opposite, id)
        }),
    decreases queue.len(), o.rem(),
{
    if o.rem() <= 0 || queue.len() == 0 || !crosses(o, queue[0].price) {
        if queue.len() > 0 {
            assert forall|j: int| 0 <= j < queue.len() implies in_queue(queue, #[trigger] queue[j].id) by {
                assert(rests_at(queue, queue[j].id, j));
            }
            assert forall|j: int| 0 <= j < queue.len() implies at_least_as_good(
                opposite(o.side),
                queue[0].price,
                #[trigger] queue[j].price,
            ) by {
                if j > 0 {
                    assert(at_least_as_good(opposite(o.side), queue[0].price, queue[j].price));
                }
            }
        }
    } else {
        let side = opposite(o.side);
        let r = queue[0];
        let q = trade_qty(o, r);
        let o2 = o.filled_by(q);
        let r2 = r.filled_by(q);
        let rest = after_front(queue, r2);
        let m1 = m.insert(r.id, r2);
        lemma_match_step(o, queue, m);
        lemma_match_keeps(o2, rest, m1);
        let next = match_spec(o2, rest);
        let touched = seq![r2] + next.touched;
        assert(touched[0] == r2);
        assert(touched.drop_first() =~= next.touched);
        assert(record_all(m, touched) == record_all(m1, next.touched));
        let m2 = record_all(m1, next.touched);
        assert forall|id: OrderId| #[trigger]
            in_queue(queue, id) && m2[id].is_live() implies in_queue(next.opposite, id) by {
            if id == r.id {
                if r2.rem() <= 0 {
                    assert(m2[id] == m1[id]);
                } else {
                    assert(in_queue(rest, id));
                }
            } else {
                assert(in_queue(rest, id));
            }
        }
    }
}

/// After adding an order, every live indexed order rests in its side's queue.
proof fn lemma_add_live_rest(b: BookModel, o: Order)
    requires
        b.wf_for(o.side),
        o.wf(),
        o.status != OrderStatus::Cancelled,
        !b.orders.contains_key(o.id),
    ensures
        b.after_add(o).live_orders_rest(),
{
    let side = o.side;
    let own = b.queue(side);
    let opp = b.queue(opposite(side));
    let m = b.orders;
    if in_queue(opp, o.id) {
        let i = choose|i: int| rests_at(opp, o.id, i);
        assert(m.contains_key(opp[i].id));
    }
    lemma_match_keeps(o, opp, m);
    let out = match_spec(o, opp);
    let m2 = record_all(m, out.touched);
    let o2 = out.incoming;
    let m3 = m2.insert(o.id, o2);
    let own2 = if o2.rem() > 0 {
        rest_in(own, o2)
    } else {
        own
    };
    let a = b.after_add(o);
    assert(a.queue(side) == own2);
    assert(a.queue(opposite(side)) == out.opposite);
    assert(a.orders == m3);
    assert forall|id: OrderId| #[trigger]
        m3.contains_key(id) && m3[id].is_live() implies in_queue(a.queue(m3[id].side), id) by {
        if id == o.id {
            lemma_rest_slot_exists(own, side, o2.price);
            assert(rests_at(own2, id, rest_slot(own, side, o2.price)));
        } else if in_queue(opp, id) {
            assert(m3[id] == m2[id]);
            assert(in_queue(out.opposite, id));
            let j = choose|j: int| rests_at(out.opposite, id, j);
            assert(m2[out.opposite[j].id] == out.opposite[j]);
        } else {
            assert(m3[id] == m[id]);
            assert(in_queue(b.queue(m[id].side), id));
            let i = choose|i: int| rests_at(own, id, i);
            if o2.rem() > 0 {
                lemma_rest_slot_exists(own, side, o2.price);
                let k = rest_slot(own, side, o2.price);
                if i < k {
                    assert(rests_at(own2, id, i));
                } else {
                    assert(rests_at(own2, id, i + 1));
                }
            } else {
                assert(rests_at(own2, id, i));
            }
        }
    }
}

/// Adding an order keeps the book's invariant, read from the order's side.
proof fn lemma_add_sides(b: BookModel, o: Order)
    requires
        b.wf_for(o.side),
        o.wf(),
        o.status != OrderStatus::Cancelled,
        !b.orders.contains_key(o.id),
    ensures
        b.after_add(o).wf_for(o.side),
{
    let side = o.side;
    let own = b.queue(side);
    let opp = b.queue(opposite(side));
    let m = b.orders;
    assert(!in_queue(opp, o.id)) by {
        if in_queue(opp, o.id) {
            let i = choose|i: int| rests_at(opp, o.id, i);
            assert(m.contains_key(opp[i].id));
        }
    }
    lemma_match_keeps(o, opp, m);
    let out = match_spec(o, opp);
    let m2 = record_all(m, out.touched);
    let o2 = out.incoming;
    let m3 = m2.insert(o.id, o2);
    let own2 = if o2.rem() > 0 {
        rest_in(own, o2)
    } else {
        own
    };
    let a = b.after_add(o);
    assert(a.queue(side) == own2);
    assert(a.queue(opposite(side)) == out.opposite);
    assert(a.orders == m3);
    // the own queue is untouched by matching
    assert forall|i: int| 0 <= i < own.len() implies !in_queue(opp, #[trigger] own[i].id)
        && own[i].id != o.id by {
        if in_queue(opp, own[i].id) {
            let j = choose|j: int| rests_at(opp, own[i].id, j);
            assert(own[i].id != opp[j].id);
        }
        assert(m.contains_key(own[i].id));
    }
    assert forall|i: int| 0 <= i < own.len() implies m3.contains_key(#[trigger] own[i].id) && m3[own[i].id]
        == own[i] by {
        assert(m2[own[i].id] == m[own[i].id]);
    }
    if o2.rem() > 0 {
        lemma_rest_slot_exists(own, side, o2.price);
        let k = rest_slot(own, side, o2.price);
        assert forall|i: int| 0 <= i < own2.len() implies {
            &&& (#[trigger] own2[i]).side == side
            &&& own2[i].is_live()
            &&& m3.contains_key(own2[i].id)
            &&& m3[own2[i].id] == own2[i]
        } by {
            if i < k {
                assert(own2[i] == own[i]);
            } else if i > k {
                assert(own2[i] == own[i - 1]);
            }
        }
        assert forall|i: int, j: int| 0 <= i < j < own2.len() implies at_least_as_good(
            side,
            #[trigger] own2[i].price,
            #[trigger] own2[j].price,
        ) by {
            if j < k {
                assert(at_least_as_good(side, own[i].price, own[j].price));
            } else if j == k {
            } else if i < k {
                assert(at_least_as_good(side, own[i].price, o2.price));
                assert(!at_least_as_good(side, own[j - 1].price, o2.price));
            } else if i == k {
                assert(!at_least_as_good(side, own[j - 1].price, o2.price));
            } else {
                assert(at_least_as_good(side, own[i - 1].price, own[j - 1].price));
            }
        }
        assert forall|i: int, j: int| 0 <= i < j < own2.len() implies #[trigger] own2[i].id
            != #[trigger] own2[j].id by {
            if i < k && j < k {
                assert(own[i].id != own[j].id);
            } else if i < k && j > k {
                assert(own[i].id != own[j - 1].id);
            } else if i > k && j > k {
                assert(own[i - 1].id != own[j - 1].id);
            } else if i == k {
                assert(own2[j] == own[j - 1]);
            } else {
                assert(own2[i] == own[i]);
            }
        }
        assert forall|i: int, j: int|
            0 <= i < own2.len() && 0 <= j < out.opposite.len() implies #[trigger] own2[i].id
            != #[trigger] out.opposite[j].id by {
            assert(in_queue(opp, out.opposite[j].id));
            if i < k {
                assert(own2[i] == own[i]);
            } else if i > k {
                assert(own2[i] == own[i - 1]);
            }
        }
        if out.opposite.len() > 0 {
            if k > 0 {
                assert(own2[0] == own[0]);
                assert(at_least_as_good(opposite(side), opp[0].price, out.opposite[0].price));
            }
        }
    } else {
        assert forall|i: int, j: int|
            0 <= i < own2.len() && 0 <= j < out.opposite.len() implies #[trigger] own2[i].id
            != #[trigger] out.opposite[j].id by {
            assert(in_queue(opp, out.opposite[j].id));
        }
        if own.len() > 0 && out.opposite.len() > 0 {
            assert(at_least_as_good(opposite(side), opp[0].price, out.opposite[0].price));
        }
    }
    assert forall|j: int| 0 <= j < out.opposite.len() implies m3.contains_key(
        #[trigger] out.opposite[j].id,
    ) && m3[out.opposite[j].id] == out.opposite[j] by {
        assert(in_queue(opp, out.opposite[j].id));
    }
    lemma_add_live_rest(b, o);
}

/// Adding an order keeps the book's invariant.
proof fn lemma_add_wf(b: BookModel, o: Order)
    requires
        b.wf(),
        o.wf(),
        o.status != OrderStatus::Cancelled,
        !b.orders.contains_key(o.id),
    ensures
        b.after_add(o).wf(),
{
    lemma_wf_for(b, o.side);
    lemma_add_sides(b, o);
    lemma_wf_for(b.after_add(o), o.side);
}

/// Joins `o` to the queue at the tail of its price.
fn rest_order(queue: &mut Vec<Order>, o: Order)
    requires
        sorted_for(old(queue)@, o.side),
    ensures
        final(queue)@ == rest_in(old(queue)@, o),
{
    let mut i: usize = 0;
    while i < queue.len() && at_least_as_good_exec(o.side, queue[i].price, o.price)
        invariant
            0 <= i <= queue@.len(),
            forall|j: int| 0 <= j < i ==> at_least_as_good(o.side, #[trigger] queue@[j].price, o.price),
        decreases queue@.len() - i,
    {
        i = i + 1;
    }
    proof {
        let s = queue@;
        assert forall|j: int| i <= j < s.len() implies !at_least_as_good(
            o.side,
            #[trigger] s[j].price,
            o.price,
        ) by {
            if j > i {
                assert(at_least_as_good(o.side, s[i as int].price, s[j].price));
            }
        }
        lemma_rest_slot_exists(s, o.side, o.price);
        lemma_rest_slot_unique(s, o.side, o.price, i as int, rest_slot(s, o.side, o.price));
    }
    queue.insert(i, o);
}

/// Finds where `id` rests in the queue.
fn find_in_queue(queue: &Vec<Order>, id: OrderId) -> (r: Option<usize>)
    ensures
        match r {
            Some(i) => rests_at(queue@, id, i as int),
            None => !in_queue(queue@, id),
        },
{
    let mut i: usize = 0;
    while i < queue.len()
        invariant
            0 <= i <= queue@.len(),
            forall|j: int| 0 <= j < i ==> (#[trigger] queue@[j]).id != id,
        decreases queue@.len() - i,
    {
        if queue[i].id == id {
            return Some(i);
        }
        i = i + 1;
    }
    None
}

/// Removing the order at `i` keeps a queue consistent with an index that changed
/// only at that order's identifier.
proof fn lemma_remove_keeps(s: Seq<Order>, side: OrderSide, m: Map<OrderId, Order>, i: int, v: Order)
    requires
        queue_ok(s, side, m),
        0 <= i < s.len(),
    ensures
        queue_ok(s.remove(i), side, m.insert(s[i].id, v)),
        without_id(s, s[i].id) == s.remove(i),
        forall|j: int| 0 <= j < s.remove(i).len() ==> in_queue(s, #[trigger] s.remove(i)[j].id),
        s.remove(i).len() > 0 ==> at_least_as_good(side, s[0].price, s.remove(i)[0].price),
{
    let t = s.remove(i);
    let id = s[i].id;
    assert(rests_at(s, id, i));
    let k = choose|k: int| rests_at(s, id, k);
    if k != i {
        if k < i {
            assert(s[k].id != s[i].id);
        } else {
            assert(s[i].id != s[k].id);
        }
    }
    assert forall|j: int| 0 <= j < t.len() implies (#[trigger] t[j]).id != id && in_queue(s, t[j].id) by {
        if j < i {
            assert(s[j].id != s[i].id);
            assert(rests_at(s, t[j].id, j));
        } else {
            assert(s[i].id != s[j + 1].id);
            assert(rests_at(s, t[j].id, j + 1));
        }
    }
    assert forall|a: int, b: int| 0 <= a < b < t.len() implies at_least_as_good(
        side,
        #[trigger] t[a].price,
        #[trigger] t[b].price,
    ) by {
        let a1 = if a < i { a } else { a + 1 };
        let b1 = if b < i { b } else { b + 1 };
        assert(at_least_as_good(side, s[a1].price, s[b1].price));
    }
    assert forall|a: int, b: int| 0 <= a < b < t.len() implies #[trigger] t[a].id != #[trigger] t[b].id by {
        let a1 = if a < i { a } else { a + 1 };
        let b1 = if b < i { b } else { b + 1 };
        assert(s[a1].id != s[b1].id);
    }
    if t.len() > 0 && i == 0 {
        assert(at_least_as_good(side, s[0].price, s[1].price));
    }
}

/// The spread between `lo` and `hi` relative to their midpoint, in hundredths of
/// a percent, rounded down: (hi - lo) / ((lo + hi) / 2) * 100 * 100.
pub open spec fn spread_bp(lo: int, hi: int) -> int {
    if lo + hi > 0 {
        (20000 * (hi - lo)) / (lo + hi)
    } else {
        0
    }
}

/// The spread in hundredths of a percent between a lower price `lo` and a higher
/// price `hi`.
pub fn spread_bp_exec(lo: Price, hi: Price) -> (r: u64)
    requires
        lo <= hi,
    ensures
        r == spread_bp(lo as int, hi as int),
{
    if hi == 0 {
        return 0;
    }
    let d: u128 = (hi - lo) as u128 * 20000;
    let s: u128 = lo as u128 + hi as u128;
    let r = d / s;
    proof {
        assert(d <= 20000 * s) by (nonlinear_arith)
            requires
                d == (hi - lo) * 20000,
                s == lo + hi,
                lo <= hi,
        ;
        vstd::arithmetic::div_mod::lemma_div_is_ordered(d as int, 20000 * s as int, s as int);
        vstd::arithmetic::div_mod::lemma_div_multiples_vanish(20000, s as int);
    }
    r as u64
}

proof fn lemma_not_indexed_not_resting(b: BookModel, id: OrderId)
    requires
        b.wf(),
        !b.orders.contains_key(id),
    ensures
        !b.is_resting(id),
{
    if exists|i: int| rests_at(b.bids, id, i) {
        let i = choose|i: int| rests_at(b.bids, id, i);
        assert(b.orders.contains_key(b.bids[i].id));
    }
    if exists|i: int| rests_at(b.asks, id, i) {
        let i = choose|i: int| rests_at(b.asks, id, i);
        assert(b.orders.contains_key(b.asks[i].id));
    }
}

proof fn lemma_other_side_not_resting(b: BookModel, id: OrderId)
    requires
        b.wf(),
        b.orders.contains_key(id),
        !in_queue(b.queue(b.orders[id].side), id),
    ensures
        !b.is_resting(id),
{
    if exists|i: int| rests_at(b.bids, id, i) {
        let i = choose|i: int| rests_at(b.bids, id, i);
        assert(b.orders[b.bids[i].id] == b.bids[i]);
    }
    if exists|i: int| rests_at(b.asks, id, i) {
        let i = choose|i: int| rests_at(b.asks, id, i);
        assert(b.orders[b.asks[i].id] == b.asks[i]);
    }
}

proof fn lemma_cancel_wf(b: BookModel, id: OrderId, i: int)
    requires
        b.wf(),
        b.orders.contains_key(id),
        rests_at(b.queue(b.orders[id].side), id, i),
    ensures
        b.is_resting(id),
        b.after_cancel(id).wf(),
        without_id(b.queue(b.orders[id].side), id) == b.queue(b.orders[id].side).remove(i),
        without_id(b.queue(opposite(b.orders[id].side)), id) == b.queue(
            opposite(b.orders[id].side),
        ),
{
    let side = b.orders[id].side;
    let own = b.queue(side);
    let opp = b.queue(opposite(side));
    let v = b.orders[id].cancelled();
    lemma_wf_for(b, side);
    assert(own[i] == b.orders[id]);
    lemma_remove_keeps(own, side, b.orders, i, v);
    if in_queue(opp, id) {
        let j = choose|j: int| rests_at(opp, id, j);
        assert(own[i].id != opp[j].id);
    }
    let m = b.orders.insert(id, v);
    let a = b.after_cancel(id);
    assert(a.queue(side) == own.remove(i));
    assert(a.queue(opposite(side)) == opp);
    assert forall|j: int| 0 <= j < opp.len() implies m.contains_key(#[trigger] opp[j].id) && m[opp[j].id]
        == opp[j] by {
        assert(own[i].id != opp[j].id);
    }
    assert forall|x: int, y: int| 0 <= x < own.remove(i).len() && 0 <= y < opp.len() implies #[trigger] own.remove(i)[x].id
        != #[trigger] opp[y].id by {
        let x1 = if x < i { x } else { x + 1 };
        assert(own[x1].id != opp[y].id);
        assert(own.remove(i)[x] == own[x1]);
    }
    if own.remove(i).len() > 0 && opp.len() > 0 {
        assert(at_least_as_good(side, own[0].price, own.remove(i)[0].price));
    }
    assert forall|x: OrderId| #[trigger]
        m.contains_key(x) && m[x].is_live() implies in_queue(a.queue(m[x].side), x) by {
        if x != id {
            assert(m[x] == b.orders[x]);
            let xs = b.orders[x].side;
            let j = choose|j: int| rests_at(b.queue(xs), x, j);
            if xs == side {
                if j < i {
                    assert(rests_at(own.remove(i), x, j));
                } else {
                    assert(j != i);
                    assert(rests_at(own.remove(i), x, j - 1));
                }
            } else {
                assert(rests_at(opp, x, j));
            }
        }
    }
    assert(a.wf_for(side));
    lemma_wf_for(a, side);
}

/// The price levels of a queue: each run of equal prices becomes one
/// (price, total remaining quantity) pair, in queue order.
pub open spec fn depth_levels(s: Seq<Order>) -> Seq<(Price, int)>
    decreases s.len(),
{
    if s.len() == 0 {
        seq![]
    } else {
        let d = depth_levels(s.drop_last());
        let o = s.last();
        if d.len() > 0 && d.last().0 == o.price {
            d.update(d.len() - 1, (o.price, d.last().1 + o.rem()))
        } else {
            d.push((o.price, o.rem()))
        }
    }
}

/// The total remaining quantity of the orders of `s` at price `p`.
pub open spec fn quantity_at(s: Seq<Order>, p: Price) -> int
    decreases s.len(),
{
    if s.len() == 0 {
        0
    } else {
        quantity_at(s.drop_last(), p) + if s.last().price == p {
            s.last().rem()
        } else {
            0
        }
    }
}

/// The first `n` levels of a queue, as returned by a depth query.
pub open spec fn top_levels(s: Seq<Order>, n: int) -> Seq<(Price, int)> {
    let d = depth_levels(s);
    if n < d.len() {
        d.take(n)
    } else {
        d
    }
}

/// Aggregates a queue into price levels, `levels` at most.
fn queue_depth(queue: &Vec<Order>, levels: usize) -> (r: Vec<(Price, u128)>)
    requires
        forall|i: int| 0 <= i < queue@.len() ==> (#[trigger] queue@[i]).filled_quantity
            <= queue@[i].quantity,
    ensures
        r@.len() == top_levels(queue@, levels as int).len(),
        forall|k: int|
            0 <= k < r@.len() ==> (#[trigger] r@[k]).0 == top_levels(queue@, levels as int)[k].0
                && r@[k].1 == top_levels(queue@, levels as int)[k].1,
{
    let mut out: Vec<(Price, u128)> = Vec::new();
    let mut i: usize = 0;
    while i < queue.len()
        invariant
            0 <= i <= queue@.len(),
            forall|j: int| 0 <= j < queue@.len() ==> (#[trigger] queue@[j]).filled_quantity
                <= queue@[j].quantity,
            out@.len() == depth_levels(queue@.take(i as int)).len(),
            forall|k: int|
                0 <= k < out@.len() ==> (#[trigger] out@[k]).0 == depth_levels(queue@.take(i as int))[k].0
                    && out@[k].1 == depth_levels(queue@.take(i as int))[k].1
                    && out@[k].1 <= i * 0xFFFF_FFFF_FFFF_FFFFu64,
        decreases queue@.len() - i,
    {
        let ghost prev = queue@.take(i as int);
        let o = queue[i];
        let left = o.remaining_quantity();
        let n = out.len();
        proof {
            assert(queue@.take(i + 1).drop_last() =~= prev);
            assert(queue@.take(i + 1).last() == o);
            assert(i * 0xFFFF_FFFF_FFFF_FFFFu64 + 0xFFFF_FFFF_FFFF_FFFFu64 == (i + 1) * 0xFFFF_FFFF_FFFF_FFFFu64) by (nonlinear_arith);
            assert((i + 1) * 0xFFFF_FFFF_FFFF_FFFFu64 <= 0xFFFF_FFFF_FFFF_FFFFu64 * 0xFFFF_FFFF_FFFF_FFFFu64) by (nonlinear_arith)
                requires i < 0xFFFF_FFFF_FFFF_FFFFu64;
        }
        if n > 0 && out[n - 1].0 == o.price {
            let total = out[n - 1].1 + left as u128;
            out.set(n - 1, (o.price, total));
        } else {
            out.push((o.price, left as u128));
        }
        i = i + 1;
        proof {
            let d = depth_levels(queue@.take(i as int));
            assert forall|k: int| 0 <= k < out@.len() implies (#[trigger] out@[k]).0 == d[k].0 && out@[k].1
                == d[k].1 && out@[k].1 <= i * 0xFFFF_FFFF_FFFF_FFFFu64 by {
                assert((i - 1) * 0xFFFF_FFFF_FFFF_FFFFu64 <= i * 0xFFFF_FFFF_FFFF_FFFFu64) by (nonlinear_arith);
            }
        }
    }
    proof {
        assert(queue@.take(i as int) =~= queue@);
    }
    if levels < out.len() {
        out.truncate(levels);
    }
    out
}

/// Every order that the book knows, resting or not, obeys its lifecycle rules: its
/// filled quantity never exceeds its quantity, and its status is the
/// function of the two (or `Cancelled`, only while not fully filled). Adding and
/// cancelling keep this (see `lemma_add_keeps_invariant`, `lemma_cancel_keeps_invariant`).
pub proof fn lemma_orders_consistent(b: BookModel)
    requires
        b.wf(),
    ensures
        forall|id: OrderId| #[trigger]
            b.orders.contains_key(id) ==> {
                &&& b.orders[id].filled_quantity <= b.orders[id].quantity
                &&& b.orders[id].status == OrderStatus::Cancelled || b.orders[id].status
                    == fill_status(b.orders[id].filled_quantity, b.orders[id].quantity)
            },
        forall|i: int| 0 <= i < b.bids.len() ==> (#[trigger] b.bids[i]).wf() && b.bids[i].rem() > 0,
        forall|i: int| 0 <= i < b.asks.len() ==> (#[trigger] b.asks[i]).wf() && b.asks[i].rem() > 0,
{
    assert forall|i: int| 0 <= i < b.bids.len() implies (#[trigger] b.bids[i]).wf() by {
        assert(b.orders.contains_key(b.bids[i].id));
    }
    assert forall|i: int| 0 <= i < b.asks.len() implies (#[trigger] b.asks[i]).wf() by {
        assert(b.orders.contains_key(b.asks[i].id));
    }
}

/// Adding a new order keeps the book's invariant.
pub proof fn lemma_add_keeps_invariant(b: BookModel, o: Order)
    requires
        b.wf(),
        o.wf(),
        o.status != OrderStatus::Cancelled,
        !b.orders.contains_key(o.id),
    ensures
        b.after_add(o).wf(),
{
    lemma_add_wf(b, o);
}

/// Cancelling a resting order keeps the book's invariant.
pub proof fn lemma_cancel_keeps_invariant(b: BookModel, id: OrderId)
    requires
        b.wf(),
        b.is_resting(id),
    ensures
        b.after_cancel(id).wf(),
{
    let side = if exists|i: int| rests_at(b.bids, id, i) {
        OrderSide::Buy
    } else {
        OrderSide::Sell
    };
    let q = b.queue(side);
    let i = choose|i: int| rests_at(q, id, i);
    assert(b.orders[q[i].id] == q[i]);
    lemma_cancel_wf(b, id, i);
}

/// The queues and the index agree: an order rests in the book exactly when the
/// index holds it as live (not cancelled, with units left).
pub proof fn lemma_resting_iff_live(b: BookModel, id: OrderId)
    requires
        b.wf(),
    ensures
        b.is_resting(id) <==> b.orders.contains_key(id) && b.orders[id].is_live(),
{
    if exists|i: int| rests_at(b.bids, id, i) {
        let i = choose|i: int| rests_at(b.bids, id, i);
        assert(b.orders[b.bids[i].id] == b.bids[i]);
    }
    if exists|i: int| rests_at(b.asks, id, i) {
        let i = choose|i: int| rests_at(b.asks, id, i);
        assert(b.orders[b.asks[i].id] == b.asks[i]);
    }
    if b.orders.contains_key(id) && b.orders[id].is_live() {
        assert(in_queue(b.queue(b.orders[id].side), id));
    }
}

/// Price-time priority and price improvement: the k-th trade of an incoming order
/// is with the k-th order of the opposite queue (best price first, earliest first
/// within a price), at that resting order's price; every resting order that is
/// followed by another trade was filled in full first.
pub proof fn lemma_price_time_priority(o: Order, queue: Seq<Order>)
    requires
        o.wf(),
        forall|i: int| 0 <= i < queue.len() ==> (#[trigger] queue[i]).wf() && queue[i].rem() > 0,
    ensures
        ({
            let f = match_spec(o, queue).fills;
            &&& f.len() <= queue.len()
            &&& forall|k: int|
                0 <= k < f.len() ==> {
                    &&& (#[trigger] f[k]).2 == queue[k].price
                    &&& if o.side == OrderSide::Buy {
                        f[k].0 == o.id && f[k].1 == queue[k].id
                    } else {
                        f[k].0 == queue[k].id && f[k].1 == o.id
                    }
                    &&& f[k].3 > 0
                    &&& f[k].3 <= queue[k].rem()
                    &&& k + 1 < f.len() ==> f[k].3 == queue[k].rem()
                }
        }),
    decreases queue.len(), o.rem(),
{
    if o.rem() <= 0 || queue.len() == 0 || !crosses(o, queue[0].price) {
    } else {
        let r = queue[0];
        let q = trade_qty(o, r);
        let o2 = o.filled_by(q);
        let r2 = r.filled_by(q);
        let rest = after_front(queue, r2);
        assert forall|i: int| 0 <= i < rest.len() implies (#[trigger] rest[i]).wf() && rest[i].rem() > 0 by {
            if r2.rem() <= 0 {
                assert(rest[i] == queue[i + 1]);
            }
        }
        lemma_price_time_priority(o2, rest);
        let next = match_spec(o2, rest);
        let f = match_spec(o, queue).fills;
        assert(f == seq![fill_terms(o, r, q)] + next.fills);
        if next.fills.len() > 0 {
            assert(r2.rem() <= 0);
            assert forall|k: int| 1 <= k < f.len() implies f[k] == next.fills[k - 1] && rest[k - 1]
                == queue[k] by {}
        }
    }
}

/// Once cancelled or fully filled, an order is no longer resting: cancelling it
/// again reports that it is not found, and it is in neither queue (so in no depth
/// level).
pub proof fn lemma_cancel_terminal(b: BookModel, id: OrderId)
    requires
        b.wf(),
        b.orders.contains_key(id),
        b.orders[id].status == OrderStatus::Cancelled || b.orders[id].status
            == OrderStatus::Filled,
    ensures
        !b.is_resting(id),
        !in_queue(b.bids, id),
        !in_queue(b.asks, id),
{
    if exists|i: int| rests_at(b.bids, id, i) {
        let i = choose|i: int| rests_at(b.bids, id, i);
        assert(b.orders[b.bids[i].id] == b.bids[i]);
    }
    if exists|i: int| rests_at(b.asks, id, i) {
        let i = choose|i: int| rests_at(b.asks, id, i);
        assert(b.orders[b.asks[i].id] == b.asks[i]);
    }
}

/// Cancelling a resting order takes it out of both queues at once (so out of every
/// depth level), records it as `Cancelled`, and a second cancel finds nothing.
pub proof fn lemma_cancel_twice(b: BookModel, id: OrderId)
    requires
        b.wf(),
        b.is_resting(id),
    ensures
        b.after_cancel(id).orders[id].status == OrderStatus::Cancelled,
        !in_queue(b.after_cancel(id).bids, id),
        !in_queue(b.after_cancel(id).asks, id),
        !b.after_cancel(id).is_resting(id),
{
    lemma_cancel_keeps_invariant(b, id);
    lemma_cancel_terminal(b.after_cancel(id), id);
}

proof fn lemma_quantity_absent(s: Seq<Order>, p: Price)
    requires
        forall|i: int| 0 <= i < s.len() ==> (#[trigger] s[i]).price != p,
    ensures
        quantity_at(s, p) == 0,
    decreases s.len(),
{
    if s.len() > 0 {
        lemma_quantity_absent(s.drop_last(), p);
    }
}

/// The levels of a queue in priority order are strictly ordered best first, each
/// holds the total remaining quantity of all orders at its price, and every level
/// is at least as good as the queue's last price.
pub proof fn lemma_depth_levels(s: Seq<Order>, side: OrderSide)
    requires
        sorted_for(s, side),
    ensures
        ({
            let d = depth_levels(s);
            &&& d.len() == 0 <==> s.len() == 0
            &&& d.len() > 0 ==> d.last().0 == s.last().price
            &&& forall|k: int, j: int|
                0 <= k < j < d.len() ==> at_least_as_good(side, #[trigger] d[k].0, #[trigger] d[j].0)
                    && d[k].0 != d[j].0
            &&& forall|k: int| 0 <= k < d.len() ==> (#[trigger] d[k]).1 == quantity_at(s, d[k].0)
            &&& forall|k: int| 0 <= k < d.len() ==> at_least_as_good(side, (#[trigger] d[k]).0, s.last().price)
        }),
    decreases s.len(),
{
    if s.len() > 0 {
        let init = s.drop_last();
        let o = s.last();
        assert(sorted_for(init, side));
        lemma_depth_levels(init, side);
        let dp = depth_levels(init);
        let d = depth_levels(s);
        if init.len() > 0 {
            assert(at_least_as_good(side, init.last().price, o.price));
        }
        assert forall|k: int| 0 <= k < dp.len() implies at_least_as_good(side, (#[trigger] dp[k]).0, o.price) by {
        }
        if dp.len() > 0 && dp.last().0 == o.price {
            assert forall|k: int| 0 <= k < d.len() implies (#[trigger] d[k]).1 == quantity_at(s, d[k].0) by {
                if k < d.len() - 1 {
                    assert(at_least_as_good(side, dp[k].0, dp[dp.len() - 1].0));
                    assert(dp[k].0 != dp[dp.len() - 1].0);
                }
            }
        } else {
            if init.len() > 0 {
                assert forall|i: int| 0 <= i < init.len() implies (#[trigger] init[i]).price != o.price by {
                    if i < init.len() - 1 {
                        assert(at_least_as_good(side, init[i].price, init[init.len() - 1].price));
                    }
                }
            }
            lemma_quantity_absent(init, o.price);
            assert forall|k: int| 0 <= k < d.len() implies (#[trigger] d[k]).1 == quantity_at(s, d[k].0) by {
                if k < d.len() - 1 {
                    if k < dp.len() - 1 {
                        assert(at_least_as_good(side, dp[k].0, dp[dp.len() - 1].0));
                    }
                }
            }
            assert forall|k: int, j: int| 0 <= k < j < d.len() implies at_least_as_good(
                side,
                #[trigger] d[k].0,
                #[trigger] d[j].0,
            ) && d[k].0 != d[j].0 by {
                if j == d.len() - 1 && k < dp.len() - 1 {
                    assert(at_least_as_good(side, dp[k].0, dp[dp.len() - 1].0));
                }
            }
        }
    }
}

/// Depth aggregation: a depth query returns at most `n` levels per side, strictly
/// ordered best first, each with the sum of the remaining quantities of all the
/// orders resting at its price.
pub proof fn lemma_depth_query(b: BookModel, n: int)
    requires
        b.wf(),
        n >= 0,
    ensures
        top_levels(b.bids, n).len() <= n,
        top_levels(b.asks, n).len() <= n,
        forall|k: int, j: int|
            0 <= k < j < top_levels(b.bids, n).len() ==> #[trigger] top_levels(b.bids, n)[k].0
                > #[trigger] top_levels(b.bids, n)[j].0,
        forall|k: int, j: int|
            0 <= k < j < top_levels(b.asks, n).len() ==> #[trigger] top_levels(b.asks, n)[k].0
                < #[trigger] top_levels(b.asks, n)[j].0,
        forall|k: int|
            0 <= k < top_levels(b.bids, n).len() ==> (#[trigger] top_levels(b.bids, n)[k]).1
                == quantity_at(b.bids, top_levels(b.bids, n)[k].0),
        forall|k: int|
            0 <= k < top_levels(b.asks, n).len() ==> (#[trigger] top_levels(b.asks, n)[k]).1
                == quantity_at(b.asks, top_levels(b.asks, n)[k].0),
{
    lemma_depth_levels(b.bids, OrderSide::Buy);
    lemma_depth_levels(b.asks, OrderSide::Sell);
    let db = depth_levels(b.bids);
    let da = depth_levels(b.asks);
    assert forall|k: int, j: int| 0 <= k < j < top_levels(b.bids, n).len() implies #[trigger] top_levels(b.bids, n)[k].0
        > #[trigger] top_levels(b.bids, n)[j].0 by {
        assert(at_least_as_good(OrderSide::Buy, db[k].0, db[j].0) && db[k].0 != db[j].0);
    }
    assert forall|k: int, j: int| 0 <= k < j < top_levels(b.asks, n).len() implies #[trigger] top_levels(b.asks, n)[k].0
        < #[trigger] top_levels(b.asks, n)[j].0 by {
        assert(at_least_as_good(OrderSide::Sell, da[k].0, da[j].0) && da[k].0 != da[j].0);
    }
    assert forall|k: int| 0 <= k < top_levels(b.bids, n).len() implies (#[trigger] top_levels(b.bids, n)[k]).1
        == quantity_at(b.bids, top_levels(b.bids, n)[k].0) by {
        assert(db[k].1 == quantity_at(b.bids, db[k].0));
    }
    assert forall|k: int| 0 <= k < top_levels(b.asks, n).len() implies (#[trigger] top_levels(b.asks, n)[k]).1
        == quantity_at(b.asks, top_levels(b.asks, n)[k].0) by {
        assert(da[k].1 == quantity_at(b.asks, da[k].0));
    }
}

impl OrderBook {
    pub fn new() -> (r: OrderBook)
        ensures
            r@ == (BookModel { bids: seq![], asks: seq![], orders: Map::empty() }),
            r@.wf(),
    {
        let r = OrderBook { bids: Vec::new(), asks: Vec::new(), orders: HashMap::new() };
        assert(r@.bids =~= seq![]);
        assert(r@.asks =~= seq![]);
        r
    }

    /// Cancels a resting order: it leaves its queue and is kept in the index as
    /// `Cancelled`. An unknown, cancelled or filled order is not found.
    pub fn cancel_order(&mut self, order_id: OrderId) -> (r: Option<Order>)
        requires
            old(self)@.wf(),
        ensures
            final(self)@.wf(),
            r.is_some() <==> old(self)@.is_resting(order_id),
            r.is_some() <==> old(self)@.orders.contains_key(order_id)
                && old(self)@.orders[order_id].is_live(),
            r.is_some() ==> r == Some(old(self)@.orders[order_id].cancelled()) && final(self)@
                == old(self)@.after_cancel(order_id),
            r.is_none() ==> final(self)@ == old(self)@,
    {
        let ghost b = self@;
        proof {
            lemma_resting_iff_live(b, order_id);
        }
        let found = match self.orders.get(&order_id) {
            Some(o) => *o,
            None => {
                proof {
                    lemma_not_indexed_not_resting(b, order_id);
                }
                return None;
            },
        };
        let at = match found.side {
            OrderSide::Buy => find_in_queue(&self.bids, order_id),
            OrderSide::Sell => find_in_queue(&self.asks, order_id),
        };
        let i = match at {
            Some(i) => i,
            None => {
                proof {
                    lemma_other_side_not_resting(b, order_id);
                }
                return None;
            },
        };
        let mut cancelled = found;
        cancelled.status = OrderStatus::Cancelled;
        proof {
            lemma_cancel_wf(b, order_id, i as int);
        }
        match found.side {
            OrderSide::Buy => {
                self.bids.remove(i);
            },
            OrderSide::Sell => {
                self.asks.remove(i);
            },
        }
        self.orders.insert(order_id, cancelled);
        proof {
            assert(self@.bids =~= b.after_cancel(order_id).bids);
            assert(self@.asks =~= b.after_cancel(order_id).asks);
        }
        Some(cancelled)
    }

    /// The highest resting buy price.
    pub fn get_best_bid(&self) -> (r: Option<Price>)
        requires
            self@.wf(),
        ensures
            r == (if self@.bids.len() > 0 {
                Some(self@.bids[0].price)
            } else {
                None
            }),
            forall|i: int| 0 <= i < self@.bids.len() ==> #[trigger] self@.bids[i].price <= r.unwrap(),
    {
        if self.bids.len() > 0 {
            proof {
                assert forall|i: int| 0 <= i < self@.bids.len() implies #[trigger] self@.bids[i].price
                    <= self@.bids[0].price by {
                    if i > 0 {
                        assert(at_least_as_good(OrderSide::Buy, self@.bids[0].price, self@.bids[i].price));
                    }
                }
            }
            Some(self.bids[0].price)
        } else {
            None
        }
    }

    /// The lowest resting sell price.
    pub fn get_best_ask(&self) -> (r: Option<Price>)
        requires
            self@.wf(),
        ensures
            r == (if self@.asks.len() > 0 {
                Some(self@.asks[0].price)
            } else {
                None
            }),
            forall|i: int| 0 <= i < self@.asks.len() ==> #[trigger] self@.asks[i].price >= r.unwrap(),
    {
        if self.asks.len() > 0 {
            proof {
                assert forall|i: int| 0 <= i < self@.asks.len() implies #[trigger] self@.asks[i].price
                    >= self@.asks[0].price by {
                    if i > 0 {
                        assert(at_least_as_good(OrderSide::Sell, self@.asks[0].price, self@.asks[i].price));
                    }
                }
            }
            Some(self.asks[0].price)
        } else {
            None
        }
    }

    /// Best ask minus best bid, in ticks, when both sides have orders.
    pub fn get_spread(&self) -> (r: Option<Price>)
        requires
            self@.wf(),
        ensures
            r == (if self@.bids.len() > 0 && self@.asks.len() > 0 {
                Some((self@.asks[0].price - self@.bids[0].price) as u64)
            } else {
                None
            }),
    {
        match (self.get_best_bid(), self.get_best_ask()) {
            (Some(bid), Some(ask)) => Some(ask - bid),
            _ => None,
        }
    }

    /// The spread relative to the midpoint, in hundredths of a percent (rounded
    /// down), when both sides have orders.
    pub fn get_spread_percentage(&self) -> (r: Option<u64>)
        requires
            self@.wf(),
        ensures
            r == (if self@.bids.len() > 0 && self@.asks.len() > 0 {
                Some(spread_bp(self@.bids[0].price as int, self@.asks[0].price as int) as u64)
            } else {
                None
            }),
    {
        match (self.get_best_bid(), self.get_best_ask()) {
            (Some(bid), Some(ask)) => Some(spread_bp_exec(bid, ask)),
            _ => None,
        }
    }

    /// The order with this identifier, in its latest state, resting or not.
    pub fn get_order(&self, order_id: &OrderId) -> (r: Option<&Order>)
        ensures
            match r {
                Some(o) => self@.orders.contains_key(*order_id) && *o == self@.orders[*order_id],
                None => !self@.orders.contains_key(*order_id),
            },
    {
        self.orders.get(order_id)
    }

    /// Up to `levels` aggregated (price, total remaining quantity) pairs per side,
    /// best first: bids by descending price, asks by ascending price.
    pub fn get_market_depth(&self, levels: usize) -> (r: (Vec<(Price, u128)>, Vec<(Price, u128)>))
        requires
            self@.wf(),
        ensures
            r.0@.len() == top_levels(self@.bids, levels as int).len(),
            forall|k: int|
                0 <= k < r.0@.len() ==> (#[trigger] r.0@[k]).0 == top_levels(self@.bids, levels as int)[k].0
                    && r.0@[k].1 == top_levels(self@.bids, levels as int)[k].1,
            r.1@.len() == top_levels(self@.asks, levels as int).len(),
            forall|k: int|
                0 <= k < r.1@.len() ==> (#[trigger] r.1@[k]).0 == top_levels(self@.asks, levels as int)[k].0
                    && r.1@[k].1 == top_levels(self@.asks, levels as int)[k].1,
    {
        (queue_depth(&self.bids, levels), queue_depth(&self.asks, levels))
    }

    /// Matches `order` against the opposite side by price-time priority and rests
    /// any remainder on its own side; returns the trades in the order they happen.
    pub fn add_order(&mut self, order: Order) -> (trades: Vec<Trade>)
        requires
            old(self)@.wf(),
            order.wf(),
            order.status != OrderStatus::Cancelled,
            !old(self)@.orders.contains_key(order.id),
        ensures
            final(self)@ == old(self)@.after_add(order),
            final(self)@.wf(),
            trades@.map_values(|t: Trade| t.terms()) == old(self)@.fills_of(order),
    {
        let ghost b = self@;
        proof {
            lemma_add_wf(b, order);
            lemma_wf_for(b, order.side);
            let opp = b.queue(opposite(order.side));
            if in_queue(opp, order.id) {
                let i = choose|i: int| rests_at(opp, order.id, i);
                assert(b.orders.contains_key(opp[i].id));
            }
            lemma_match_keeps(order, opp, b.orders);
        }
        let (done, trades) = match order.side {
            OrderSide::Buy => match_incoming(order, &mut self.asks, &mut self.orders),
            OrderSide::Sell => match_incoming(order, &mut self.bids, &mut self.orders),
        };
        if done.remaining_quantity() > 0 {
            match order.side {
                OrderSide::Buy => rest_order(&mut self.bids, done),
                OrderSide::Sell => rest_order(&mut self.asks, done),
            }
        }
        self.orders.insert(done.id, done);
        proof {
            assert(self@.bids =~= b.after_add(order).bids);
            assert(self@.asks =~= b.after_add(order).asks);
        }
        trades
    }
}

impl Default for OrderBook {
    fn default() -> (r: OrderBook)
        ensures
            r@ == (BookModel { bids: seq![], asks: seq![], orders: Map::empty() }),
            r@.wf(),
    {
        OrderBook::new()
    }
}

} // verus!
