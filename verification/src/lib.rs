//! Core of an authoritative multiplayer state-synchronization protocol.
//!
//! A server owns the canonical state of every connected player's entity and
//! periodically pushes updates to all clients over an unreliable datagram
//! transport; clients apply those updates to a local mirror and push their own
//! local changes back. This crate holds the protocol types, the byte codec,
//! the server's session table and tick step, and the client's reconciliation
//! logic. Socket I/O, timing, and rendering live outside the library.

pub mod client;
pub mod codec;
pub mod protocol;
pub mod server;

use vstd::prelude::*;

verus! {

/// Milliseconds still to sleep to hold a fixed tick cadence: the target
/// interval minus the time the tick took, clamped to zero on overrun.
pub fn pace_remaining(target_ms: u64, elapsed_ms: u64) -> (r: u64)
    ensures
        r == if elapsed_ms >= target_ms { 0int } else { target_ms - elapsed_ms },
{
    if elapsed_ms >= target_ms {
        0
    } else {
        target_ms - elapsed_ms
    }
}

} // verus!
