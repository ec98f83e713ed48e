//! The Hysteria2 server.

pub mod auth;
pub mod tcp;
pub mod udp;
pub mod varint;

use vstd::prelude::*;

verus! {

/// Runtime configuration for the Hysteria2 server.
pub struct Hysteria2ServerConfig {
    pub listen: String,
    pub password: String,
    pub udp_enabled: bool,
    pub cert: Option<String>,
    pub key: Option<String>,
    /// ALPN protocols (default `["h3"]`).
    pub alpn: Vec<String>,
}

/// The ALPN protocols that a configuration asks for: `h3` where it gives none.
pub fn configured_alpn(alpn: Vec<String>) -> (r: Vec<String>)
    ensures
        alpn@.len() > 0 ==> r == alpn,
        alpn@.len() == 0 ==> r@.len() == 1 && r@[0]@ == "h3"@,
{
    if alpn.len() == 0 {
        let mut default: Vec<String> = Vec::new();
        default.push("h3".to_owned());
        default
    } else {
        alpn
    }
}

/// Why a connection gives no more streams.
#[derive(Debug, Clone, Copy, PartialEq, Eq, Structural)]
pub enum AcceptEnd {
    /// The peer's application closed the connection.
    ApplicationClosed,
    /// The peer closed the connection.
    ConnectionClosed,
    /// Anything else.
    Failed,
}

/// Whether serving streams ends well: a connection that its peer closed is no error.
pub fn ends_well(end: AcceptEnd) -> (r: bool)
    ensures
        r == (end != AcceptEnd::Failed),
{
    match end {
        AcceptEnd::ApplicationClosed => true,
        AcceptEnd::ConnectionClosed => true,
        AcceptEnd::Failed => false,
    }
}

} // verus!
