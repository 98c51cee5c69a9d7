//! A token-paired relay core: clients that present the same token share a
//! room, and frames are fanned out among the room's members.
//!
//! The crate holds the parts with real invariants — the room registry with
//! its join/leave lifecycle, the routing decision table, the exact response
//! frames, and the per-connection lifecycle state machine — each with a
//! verified contract.  The surrounding runtime (transport, token validator,
//! timers, queues) consumes these through plain values: it hands in frame
//! texts and takes back states and recipient/payload lists.

pub mod conn;
mod ident;
pub mod laws;
pub mod registry;
pub mod router;
pub mod wire;
