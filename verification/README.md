# rust_proxy_server

A small proxy server that speaks the server side of **Hysteria2** (QUIC, HTTP/3) and
**AnyTLS** (TLS with multiplexed streams). All traffic goes straight to its destination.

The library under `src/` holds everything that the protocols decide: how bytes are parsed and
written, who is let in, what a session answers to a frame, where a packet goes and when a
connection ends. It does no I/O. Every function of it carries a contract, and Verus proves the
contracts. The program under `app/` moves the bytes: sockets, TLS, QUIC, timers and tasks.

| Module | What it holds |
| --- | --- |
| `address`, `ip`, `text` | locations such as `host:port`, and their spelling |
| `stream_reader`, `message_stream` | buffered reading, and messages over byte streams |
| `udp_relay` | copying messages both ways, and one socket per destination |
| `resolver`, `lru_cache` | the cache of resolved names |
| `hysteria2` | variable-length integers, authentication, TCP requests, UDP datagrams |
| `anytls` | frames, padding schemes, sessions, streams, the handshake |
| `config`, `tls_config` | configuration, options, certificates |
| `error`, `random`, `util` | errors, random draws, bytes |

What the outside crates do is stated in a few functions whose doc comments name the call:
`rand` in `random`, `lru` in `resolver` and `hysteria2::udp`, `rustc-hash` in `hysteria2::udp`,
`md-5` in `anytls::padding`, `aws-lc-rs` in `anytls::server`, `http` in `hysteria2::auth`,
`rustls-pemfile` and `rcgen` in `tls_config`. `core::str::from_utf8` is in `text`.
