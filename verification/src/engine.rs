//! The matching engine and the types it works on.
pub mod book;
pub mod decimal;
pub mod engine;
pub mod event;
pub mod history;
pub mod index;
pub mod ladder;
pub mod laws;
pub mod order;
pub mod order_id;
pub mod order_request;
pub mod order_status;
pub mod orderbook;
pub mod precedence;
pub mod queue;
pub mod sided;
pub mod sweeping;
pub mod trade;

pub use self::book::{BookView, Command, Outcome, Sweep};
pub use self::decimal::Decimal;
pub use self::engine::Engine;
pub use self::event::Event;
pub use self::order::{Order, OrderError, OrderView};
pub use self::order_id::OrderId;
pub use self::order_request::{OrderRequest, OrderRequestError};
pub use self::order_status::OrderStatus;
pub use self::orderbook::Orderbook;
pub use self::sided::{AskOrder, BidOrder};
pub use self::trade::{Trade, TradeError};
