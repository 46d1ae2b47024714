//! State synchronisation for a real-time multiplayer simulation.
//!
//! The server runs each player's movement from a queue of numbered inputs
//! and sends periodic snapshots; a client predicts its own player from local
//! input, reconciles that prediction with each snapshot, and dead-reckons
//! every other entity between snapshots.
//!
//! - `vector`: fixed-point vectors (millimetres) and integer square roots.
//! - `input`: input commands, serials, and the input queue with its
//!   acknowledgement discard.
//! - `controller`: the movement integrator (ground, air and free-fly).
//! - `extrapolate`: linear dead reckoning.
//! - `reconcile`: the kinematic replay of unacknowledged input.
//! - `frame`, `wire`, `datagram`: snapshots, messages, channels and framing.
//! - `client`, `server`: the two sides of the protocol.
//! - `log`: the position log kept for offline drift analysis.

use vstd::prelude::*;

pub mod vector;
pub mod input;
pub mod extrapolate;
pub mod controller;
pub mod frame;
pub mod wire;
pub mod reconcile;
pub mod client;
pub mod server;
pub mod log;
pub mod datagram;

verus! {

} // verus!
