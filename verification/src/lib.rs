//! A deterministic, replayable order-matching engine for a single trading
//! pair: a pure state transition from a prior order-book state and one action
//! to a new state and a textual result or error.

pub mod book;
pub mod codec;
pub mod contract;
pub mod dispatch;
pub mod laws;
pub mod state;

pub use book::{Market, MatchV, Order, OrderType, OrderV, MarketV};
pub use contract::{OrderBookContract, TokenAction};
pub use dispatch::{execute, OrderBookAction};
pub use state::{OrderBookState, StateV};
