use market_sim::{MarketSimulator, OrderSide, OrderStatus, PlaceError};

// Prices are in cents: 10000 ticks is 100.00. Spreads are in hundredths of a percent.

#[test]
fn test_basic_order_placement() {
    let mut market = MarketSimulator::new(100);

    let buy_order_id = market.place_order(OrderSide::Buy, 10000, 10).unwrap();
    assert!(market.get_order(&buy_order_id).is_some());

    let sell_order_id = market.place_order(OrderSide::Sell, 10200, 5).unwrap();
    assert!(market.get_order(&sell_order_id).is_some());
}

#[test]
fn test_minimum_spread_enforcement() {
    let mut market = MarketSimulator::new(100);

    market.place_order(OrderSide::Buy, 10000, 10).unwrap();

    let result = market.place_order(OrderSide::Sell, 10050, 5);
    assert!(result.is_err());

    let result = market.place_order(OrderSide::Sell, 10200, 5);
    assert!(result.is_ok());
}

#[test]
fn test_trade_execution() {
    let mut market = MarketSimulator::new(100);

    market.place_order(OrderSide::Sell, 10000, 10).unwrap();
    market.place_order(OrderSide::Buy, 10000, 5).unwrap();

    let trades = market.get_all_trades();
    assert_eq!(trades.len(), 1);
    assert_eq!(trades[0].quantity, 5);
    assert_eq!(trades[0].price, 10000);
}

#[test]
fn test_order_cancellation() {
    let mut market = MarketSimulator::new(100);

    let order_id = market.place_order(OrderSide::Buy, 10000, 10).unwrap();

    let cancelled_order = market.cancel_order(order_id);
    assert!(cancelled_order.is_some());

    // The order has left the book; the index keeps it as cancelled.
    let order = market.get_order(&order_id);
    assert_eq!(order.unwrap().status, OrderStatus::Cancelled);
    assert_eq!(market.get_best_bid(), None);
}

#[test]
fn opening_book_and_narrow_sell_rejected() {
    let mut market = MarketSimulator::new(100);
    market.place_order(OrderSide::Buy, 10000, 10).unwrap();
    market.place_order(OrderSide::Buy, 9900, 15).unwrap();
    assert!(market.place_order(OrderSide::Sell, 10200, 8).is_ok());
    // (102 - 100) / 101 = 1.98%
    assert_eq!(market.get_spread_percentage(), Some(198));
    assert_eq!(market.get_spread(), Some(200));
    // (100.5 - 100) / 100.25 = 0.498%
    let r = market.place_order(OrderSide::Sell, 10050, 5);
    assert_eq!(r, Err(PlaceError::SpreadTooNarrow { spread_bp: 49, minimum_bp: 100 }));
    assert_eq!(market.get_best_ask(), Some(10200));
}

#[test]
fn narrow_buy_rejected_against_ask() {
    let mut market = MarketSimulator::new(100);
    market.place_order(OrderSide::Sell, 10000, 10).unwrap();
    let r = market.place_order(OrderSide::Buy, 9950, 5);
    assert_eq!(r, Err(PlaceError::SpreadTooNarrow { spread_bp: 50, minimum_bp: 100 }));
    assert_eq!(market.get_best_bid(), None);
    assert!(market.place_order(OrderSide::Buy, 9800, 5).is_ok());
}

#[test]
fn crossing_order_bypasses_policy() {
    let mut market = MarketSimulator::new(100);
    market.place_order(OrderSide::Buy, 10000, 10).unwrap();
    // At the best bid: executes at once, so no spread limit applies.
    let id = market.place_order(OrderSide::Sell, 10000, 4).unwrap();
    assert_eq!(market.get_all_trades().len(), 1);
    assert_eq!(market.get_order(&id).unwrap().status, OrderStatus::Filled);
}

#[test]
fn partial_fill_leaves_remainder_resting() {
    let mut market = MarketSimulator::new(100);
    let sell = market.place_order(OrderSide::Sell, 10000, 10).unwrap();
    let buy = market.place_order(OrderSide::Buy, 10000, 5).unwrap();
    let trades = market.get_all_trades();
    assert_eq!(trades.len(), 1);
    assert_eq!(trades[0].buy_order_id, buy);
    assert_eq!(trades[0].sell_order_id, sell);
    assert_eq!(trades[0].price, 10000);
    assert_eq!(trades[0].quantity, 5);
    let s = market.get_order(&sell).unwrap();
    assert_eq!(s.remaining_quantity(), 5);
    assert_eq!(s.status, OrderStatus::PartiallyFilled);
    assert_eq!(market.get_best_ask(), Some(10000));
    let (bids, asks) = market.get_market_depth(5);
    assert!(bids.is_empty());
    assert_eq!(asks, vec![(10000, 5)]);
}

#[test]
fn earlier_order_at_same_price_fills_first() {
    let mut market = MarketSimulator::new(0);
    let first = market.place_order(OrderSide::Sell, 10000, 5).unwrap();
    let second = market.place_order(OrderSide::Sell, 10000, 7).unwrap();
    market.place_order(OrderSide::Buy, 10000, 8).unwrap();
    let trades = market.get_all_trades();
    assert_eq!(trades.len(), 2);
    assert_eq!(trades[0].sell_order_id, first);
    assert_eq!(trades[0].quantity, 5);
    assert_eq!(trades[1].sell_order_id, second);
    assert_eq!(trades[1].quantity, 3);
    assert_eq!(market.get_order(&first).unwrap().status, OrderStatus::Filled);
    let s = market.get_order(&second).unwrap();
    assert_eq!(s.filled_quantity, 3);
    assert_eq!(s.status, OrderStatus::PartiallyFilled);
}

#[test]
fn better_price_fills_before_earlier_worse_price() {
    let mut market = MarketSimulator::new(0);
    let worse = market.place_order(OrderSide::Buy, 9900, 5).unwrap();
    let better = market.place_order(OrderSide::Buy, 10000, 5).unwrap();
    market.place_order(OrderSide::Sell, 9900, 7).unwrap();
    let trades = market.get_all_trades();
    assert_eq!(trades.len(), 2);
    assert_eq!(trades[0].buy_order_id, better);
    assert_eq!(trades[0].price, 10000);
    assert_eq!(trades[0].quantity, 5);
    assert_eq!(trades[1].buy_order_id, worse);
    assert_eq!(trades[1].price, 9900);
    assert_eq!(trades[1].quantity, 2);
}

#[test]
fn aggressor_gets_resting_price() {
    let mut market = MarketSimulator::new(100);
    market.place_order(OrderSide::Sell, 10000, 5).unwrap();
    market.place_order(OrderSide::Buy, 10100, 5).unwrap();
    let trades = market.get_all_trades();
    assert_eq!(trades.len(), 1);
    assert_eq!(trades[0].price, 10000);
    assert_eq!(market.get_best_ask(), None);
    assert_eq!(market.get_best_bid(), None);
}

#[test]
fn accepted_order_spread_at_least_minimum() {
    let mut market = MarketSimulator::new(100);
    market.place_order(OrderSide::Buy, 10000, 10).unwrap();
    market.place_order(OrderSide::Sell, 10101, 1).unwrap();
    let pct = market.get_spread_percentage().unwrap();
    assert!(pct >= 100);
    assert_eq!(pct, 100);
}

#[test]
fn cancel_twice_and_cancel_filled() {
    let mut market = MarketSimulator::new(0);
    let a = market.place_order(OrderSide::Buy, 10000, 10).unwrap();
    let b = market.place_order(OrderSide::Buy, 10000, 4).unwrap();
    assert!(market.cancel_order(a).is_some());
    assert!(market.cancel_order(a).is_none());
    let (bids, _) = market.get_market_depth(5);
    assert_eq!(bids, vec![(10000, 4)]);
    market.place_order(OrderSide::Sell, 10000, 4).unwrap();
    assert_eq!(market.get_order(&b).unwrap().status, OrderStatus::Filled);
    assert!(market.cancel_order(b).is_none());
    assert!(market.cancel_order(b).is_none());
    assert_eq!(market.get_order(&b).unwrap().status, OrderStatus::Filled);
}

#[test]
fn cancel_unknown_is_not_found() {
    let mut market = MarketSimulator::new(0);
    assert!(market.cancel_order(42).is_none());
    assert!(market.get_order(&42).is_none());
}

#[test]
fn depth_aggregates_and_limits_levels() {
    let mut market = MarketSimulator::new(0);
    market.place_order(OrderSide::Buy, 9900, 3).unwrap();
    market.place_order(OrderSide::Buy, 10000, 2).unwrap();
    market.place_order(OrderSide::Buy, 9900, 4).unwrap();
    market.place_order(OrderSide::Buy, 9800, 1).unwrap();
    market.place_order(OrderSide::Sell, 10300, 6).unwrap();
    market.place_order(OrderSide::Sell, 10200, 2).unwrap();
    market.place_order(OrderSide::Sell, 10200, 5).unwrap();
    let (bids, asks) = market.get_market_depth(2);
    assert_eq!(bids, vec![(10000, 2), (9900, 7)]);
    assert_eq!(asks, vec![(10200, 7), (10300, 6)]);
    let (bids, asks) = market.get_market_depth(10);
    assert_eq!(bids, vec![(10000, 2), (9900, 7), (9800, 1)]);
    assert_eq!(asks.len(), 2);
    let (bids, asks) = market.get_market_depth(0);
    assert!(bids.is_empty() && asks.is_empty());
}

#[test]
fn fills_never_exceed_quantity() {
    let mut market = MarketSimulator::new(0);
    let s1 = market.place_order(OrderSide::Sell, 10000, 3).unwrap();
    let s2 = market.place_order(OrderSide::Sell, 10100, 3).unwrap();
    let b = market.place_order(OrderSide::Buy, 10200, 10).unwrap();
    for id in [s1, s2, b] {
        let o = market.get_order(&id).unwrap();
        assert!(o.filled_quantity <= o.quantity);
    }
    let o = market.get_order(&b).unwrap();
    assert_eq!(o.filled_quantity, 6);
    assert_eq!(o.status, OrderStatus::PartiallyFilled);
    assert_eq!(market.get_best_bid(), Some(10200));
    assert_eq!(market.get_order(&s1).unwrap().status, OrderStatus::Filled);
    assert_eq!(market.get_order(&s2).unwrap().status, OrderStatus::Filled);
}

#[test]
fn recent_trades_newest_first() {
    let mut market = MarketSimulator::new(0);
    market.place_order(OrderSide::Sell, 10000, 1).unwrap();
    market.place_order(OrderSide::Sell, 10100, 1).unwrap();
    market.place_order(OrderSide::Sell, 10200, 1).unwrap();
    market.place_order(OrderSide::Buy, 10200, 3).unwrap();
    let recent = market.get_recent_trades(2);
    assert_eq!(recent.len(), 2);
    assert_eq!(recent[0].price, 10200);
    assert_eq!(recent[1].price, 10100);
    assert_eq!(market.get_recent_trades(10).len(), 3);
    assert_eq!(market.get_all_trades()[0].price, 10000);
}

#[test]
fn empty_market_queries() {
    let market = MarketSimulator::new(100);
    assert_eq!(market.get_best_bid(), None);
    assert_eq!(market.get_best_ask(), None);
    assert_eq!(market.get_spread(), None);
    assert_eq!(market.get_spread_percentage(), None);
    assert!(market.get_recent_trades(3).is_empty());
}

#[test]
fn fresh_orders_get_distinct_ids() {
    let mut market = MarketSimulator::new(0);
    let a = market.place_order(OrderSide::Buy, 10000, 1).unwrap();
    let b = market.place_order(OrderSide::Buy, 10000, 1).unwrap();
    assert_ne!(a, b);
    assert!(market.get_order(&a).unwrap().timestamp > 0);
    market.place_order(OrderSide::Sell, 10000, 2).unwrap();
    let t = market.get_all_trades();
    assert_ne!(t[0].id, t[1].id);
    assert!(t[0].timestamp > 0);
}
