//! A limit-order book for a single trading pair: orders, the book that holds
//! them under price-time priority, the matcher, and the engine that turns
//! requests into events.
pub mod engine;
pub mod order_side;

pub use crate::order_side::OrderSide;
