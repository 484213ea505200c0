//! Real-time state-synchronization core for a small multiplayer maze shooter.
//!
//! The crate covers the wire protocol and its binary codec, the server-side
//! peer registry with liveness sweeping, the relay server's dispatch logic,
//! the client-side roster of player replicas, and the join/host handshake.
//! All network and thread plumbing lives outside this crate; every function
//! here is pure logic over plain values and is verified.

pub mod codec;
pub mod maze;
pub mod registry;
pub mod relay;
pub mod msg;
pub mod player;
pub mod rng;
pub mod session;

use vstd::prelude::*;

verus! {

} // verus!
