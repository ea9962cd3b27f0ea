//! Verified core of a websocket client for the Lighter exchange.
//!
//! The library decides: what a subscription stands for, what each message of the exchange changes
//! and whom it is handed to, how an update is merged into an order book, and what is sent when.
//! Opening the connection, sending, receiving and calling handlers are left to its user.

pub mod builder;
pub mod client;
pub mod decimal;
pub mod error;
pub mod handshake;
pub mod json;
pub mod message;
pub mod order_book;
pub mod spelling;
pub mod subscription;
pub mod text;
pub mod text_map;
pub mod wire;

pub use builder::{LighterConfig, WsClientBuilder};
pub use client::{Action, Frame, WsClient};
pub use error::LighterError;
pub use handshake::{Handshake, HandshakeStep};
pub use json::Json;
pub use message::{WsError, WsRequest, WsResponse};
