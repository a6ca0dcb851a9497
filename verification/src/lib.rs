//! A NATS client over WebSocket: the protocol core. This crate reads the
//! server's messages off the bytes of WebSocket messages, writes the client's
//! messages, and keeps the state of a connection; the socket itself, the
//! message channel and the callbacks are driven by the caller.
pub mod client_message;
pub mod connection;
pub mod decimal;
pub mod error;
pub mod frame;
pub mod message;
pub mod server_error;
pub mod server_info;
pub mod server_message;
pub mod sid;
pub mod subject;
pub mod text;

pub use client_message::ClientMessage;
pub use connection::{Action, ConnectionState, DeliveryFailure, SocketEvent};
pub use error::{Error, Result};
pub use message::{Message, MessageWithSid};
pub use server_error::{ServerError, ServerResult};
pub use server_info::ServerInfo;
pub use server_message::ServerMessage;
pub use sid::SubscriptionId;
pub use subject::Subject;
