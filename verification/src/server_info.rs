//! The server's description of itself, as `INFO` carries it in JSON.
use crate::decimal::{decimal, push_decimal};
use crate::error::{Error, ErrorView};
use vstd::prelude::*;

verus! {

/// Information about the connected NATS server.
#[derive(Debug)]
pub struct ServerInfo {
    pub server_id: String,
    pub server_name: String,
    pub version: String,
    pub go: String,
    pub host: String,
    pub port: u16,
    pub headers: bool,
    pub max_payload: usize,
    pub proto: u8,
    pub client_id: Option<u64>,
    pub git_commit: Option<String>,
    pub client_ip: Option<String>,
    /// Undocumented, returned by version 2.12.1
    pub api_lvl: Option<u8>,
    /// Undocumented, returned by version 2.12.1
    pub xkey: Option<String>,
}

impl ServerInfo {
    /// Accepts a description only for NATS protocol version 1; otherwise the
    /// error names the version.
    pub fn check_protocol_version(&self) -> (r: Result<(), Error>)
        ensures
            r is Ok <==> self.proto == 1,
            r matches Err(e) ==> e@ == ErrorView::NatsProtocol(
                "unsupported NATS protocol version: "@ + decimal(self.proto as nat),
            ),
    {
        if self.proto != 1 {
            let mut text = "unsupported NATS protocol version: ".to_owned();
            push_decimal(&mut text, self.proto as u64);
            return Err(Error::NatsProtocol(text));
        }
        Ok(())
    }
}

} // verus!
