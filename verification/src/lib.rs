//! A tiny textual key-value protocol (GET/SET/DEL/INCR/QUIT) served from an
//! in-memory store, together with the decision logic of a readiness-driven,
//! single-threaded event loop. The surrounding process (sockets, polling)
//! lives outside this crate; everything here is verified.

pub mod num;
pub mod parse;
pub mod protocol;
pub mod server;
pub mod store;
