use market_sim::{MarketSimulator, Order, OrderBook, OrderSide, OrderStatus, OrderType, PlaceError};

fn order(id: u128, side: OrderSide, price: u64, quantity: u64) -> Order {
    Order {
        id,
        side,
        order_type: OrderType::Limit,
        price,
        quantity,
        filled_quantity: 0,
        status: OrderStatus::Open,
        timestamp: 0,
    }
}

#[test]
fn book_matches_and_rests() {
    let mut book = OrderBook::new();
    assert!(book.add_order(order(1, OrderSide::Sell, 10100, 5)).is_empty());
    assert!(book.add_order(order(2, OrderSide::Sell, 10000, 5)).is_empty());
    let trades = book.add_order(order(3, OrderSide::Buy, 10100, 8));
    assert_eq!(trades.len(), 2);
    assert_eq!((trades[0].buy_order_id, trades[0].sell_order_id, trades[0].price, trades[0].quantity), (3, 2, 10000, 5));
    assert_eq!((trades[1].buy_order_id, trades[1].sell_order_id, trades[1].price, trades[1].quantity), (3, 1, 10100, 3));
    assert_eq!(book.get_best_ask(), Some(10100));
    assert_eq!(book.get_order(&1).unwrap().remaining_quantity(), 2);
    assert_eq!(book.get_order(&3).unwrap().status, OrderStatus::Filled);
    assert_eq!(book.get_best_bid(), None);
}

#[test]
fn book_spread_queries() {
    let mut book = OrderBook::default();
    book.add_order(order(1, OrderSide::Buy, 9900, 5));
    assert_eq!(book.get_spread(), None);
    book.add_order(order(2, OrderSide::Sell, 10100, 5));
    assert_eq!(book.get_spread(), Some(200));
    // 2 / 100 = 2%
    assert_eq!(book.get_spread_percentage(), Some(200));
}

#[test]
fn zero_quantity_order_does_not_rest() {
    let mut book = OrderBook::new();
    let trades = book.add_order(order(1, OrderSide::Buy, 10000, 0));
    assert!(trades.is_empty());
    assert_eq!(book.get_best_bid(), None);
    assert!(book.get_order(&1).is_some());
    assert!(book.cancel_order(1).is_none());
}

#[test]
fn cancel_on_book_returns_cancelled_state() {
    let mut book = OrderBook::new();
    book.add_order(order(7, OrderSide::Sell, 10000, 5));
    book.add_order(order(8, OrderSide::Buy, 10000, 2));
    let c = book.cancel_order(7).unwrap();
    assert_eq!(c.status, OrderStatus::Cancelled);
    assert_eq!(c.filled_quantity, 2);
    assert_eq!(book.get_best_ask(), None);
    let (_, asks) = book.get_market_depth(3);
    assert!(asks.is_empty());
}

#[test]
fn order_lifecycle_methods() {
    let mut o = Order::new(OrderSide::Buy, 10000, 10);
    assert_eq!(o.status, OrderStatus::Open);
    assert_eq!(o.remaining_quantity(), 10);
    assert!(!o.is_complete());
    o.fill(4);
    assert_eq!(o.status, OrderStatus::PartiallyFilled);
    assert_eq!(o.remaining_quantity(), 6);
    o.fill(6);
    assert_eq!(o.status, OrderStatus::Filled);
    assert!(o.is_complete());
}

#[test]
fn duplicate_identifier_rejected() {
    let mut market = MarketSimulator::new(0);
    assert_eq!(market.place_new_order(order(5, OrderSide::Buy, 10000, 1)), Ok(5));
    assert_eq!(market.place_new_order(order(5, OrderSide::Buy, 9000, 1)), Err(PlaceError::DuplicateId));
    assert_eq!(market.get_order(&5).unwrap().price, 10000);
}
