//! The AnyTLS server.

pub mod padding;
pub mod server;
pub mod session;
pub mod stream;
pub mod types;
pub mod writer;
