//! A minimal HTTP/1.1 server core: request framing and parsing, exact-path
//! routing, response rendering and the per-connection state machine.

pub mod headers;
pub mod http;
pub mod roundtrip;
pub mod router;
pub mod tcpserver;
pub mod text;
