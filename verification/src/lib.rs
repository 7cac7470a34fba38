//! Core logic of a TLS-terminating HTTP reverse proxy.
//!
//! The crate holds the decision-making parts of the proxy: the routing
//! table that maps a host and a path prefix to a service, the upstream
//! connection-pool bookkeeping (idle reuse, least-loaded address choice,
//! stale-connection sweeping), the certificate store keyed by server
//! name, and the request handler's host extraction, path splitting and
//! error-page rendering. Every function here carries a contract and is
//! verified.
//!
//! Networking, TLS and HTTP framing live outside this crate: callers
//! hand in plain byte strings, timestamps in milliseconds and small
//! integer tokens (service ids, connection ids, address indices) and
//! act on the decisions returned.

pub mod cert;
pub mod error;
pub mod handler;
pub mod pool;
pub mod routes;
pub mod text;
