//! A single-instrument limit order matching engine.
//!
//! Prices are integer ticks, quantities are whole units and order identifiers
//! are 128-bit values (the bits of a random UUID). The book keeps each side in
//! price-time priority and matches incoming orders against the opposite side.
pub mod market;
pub mod order;
pub mod order_book;

pub use market::{MarketSimulator, PlaceError};
pub use order::{Order, OrderId, OrderSide, OrderStatus, OrderType, Price, Quantity, Trade, TradeId};
pub use order_book::OrderBook;
