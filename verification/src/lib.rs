//! A verified core of a Practical Byzantine Fault Tolerance (PBFT) replica:
//! the three-phase agreement protocol (PrePrepare / Prepare / Commit), the
//! view-change subprotocol, a peer-accusation subprotocol, and canonical
//! message encoding with Ed25519 authentication.

use vstd::prelude::*;

pub mod codec;
pub mod config;
pub mod digest;
pub mod laws;
pub mod msg;
pub mod node;
pub mod sig;
pub mod state;
pub mod store;

verus! {

} // verus!
