//! Server core of a real-time multiplayer session protocol: a length-prefixed
//! binary wire format with a base-128 size prefix, a token-routed command
//! dispatcher, per-connection session state, and rooms that coordinate their
//! members through synchronized map rounds.
//!
//! Everything here is plain computation on plain values: the surrounding
//! program owns the sockets and clocks, feeds inbound bytes to
//! [`handlers::process_chunk`], drains each session's outbound frame queue
//! onto its socket, and drives every active room's round loop through
//! [`server::tick`] once per second.

use vstd::prelude::*;

pub mod bytearray;
pub mod framer;
pub mod handlers;
pub mod room;
pub mod server;
pub mod session;
pub mod text;
pub mod tokens;
pub mod utils;

verus! {

} // verus!
