//! The protocol core of a proxy server that speaks Hysteria2 and AnyTLS.

pub mod address;
pub mod anytls;
pub mod config;
pub mod error;
pub mod hysteria2;
pub mod ip;
pub mod lru_cache;
pub mod message_stream;
pub mod random;
pub mod resolver;
pub mod stream_reader;
pub mod text;
pub mod tls_config;
pub mod udp_relay;
pub mod util;
