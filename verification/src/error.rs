//! The error type of the client.
use vstd::prelude::*;

verus! {

/// Error type for NATS over WebSocket client.
#[derive(Debug)]
pub enum Error {
    /// WebSocket related errors.
    WebSocket(String),
    /// Message channel related errors.
    MessageChannel(String),
    /// NATS protocol related errors.
    NatsProtocol(String),
    /// Invalid state errors.
    State(String),
}

/// Result type for NATS over WebSocket client.
pub type Result<T, E = Error> = core::result::Result<T, E>;

/// The model of an [`Error`]: its kind and the text it carries.
pub enum ErrorView {
    WebSocket(Seq<char>),
    MessageChannel(Seq<char>),
    NatsProtocol(Seq<char>),
    State(Seq<char>),
}

impl View for Error {
    type V = ErrorView;

    open spec fn view(&self) -> ErrorView {
        match self {
            Error::WebSocket(m) => ErrorView::WebSocket(m@),
            Error::MessageChannel(m) => ErrorView::MessageChannel(m@),
            Error::NatsProtocol(m) => ErrorView::NatsProtocol(m@),
            Error::State(m) => ErrorView::State(m@),
        }
    }
}

/// The text by which an error presents itself to a user.
pub open spec fn display_text(e: ErrorView) -> Seq<char> {
    match e {
        ErrorView::WebSocket(m) => "WebSocket error: "@ + m,
        ErrorView::MessageChannel(m) => "Message channel error: "@ + m,
        ErrorView::NatsProtocol(m) => "NATS protocol error: "@ + m,
        ErrorView::State(m) => "Invalid state error: "@ + m,
    }
}

impl Error {
    /// The text by which this error presents itself to a user: its kind,
    /// a colon and its message.
    pub fn display_string(&self) -> (s: String)
        ensures
            s@ == display_text(self@),
    {
        match self {
            Error::WebSocket(m) => "WebSocket error: ".to_owned().concat(m.as_str()),
            Error::MessageChannel(m) => "Message channel error: ".to_owned().concat(m.as_str()),
            Error::NatsProtocol(m) => "NATS protocol error: ".to_owned().concat(m.as_str()),
            Error::State(m) => "Invalid state error: ".to_owned().concat(m.as_str()),
        }
    }
}

/// A protocol error with the given message.
pub fn protocol_error(message: &str) -> (e: Error)
    ensures
        e@ == ErrorView::NatsProtocol(message@),
{
    Error::NatsProtocol(message.to_owned())
}

/// A state error with the given message.
pub fn state_error(message: &str) -> (e: Error)
    ensures
        e@ == ErrorView::State(message@),
{
    Error::State(message.to_owned())
}

} // verus!
