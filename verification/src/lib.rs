//! A UDP rendezvous relay as a pure state machine.
//!
//! Two peers that present the same pairing token (and the relay's preshared
//! key) are matched into a session; from then on every datagram of one is
//! handed to the other. The library holds no socket and reads no clock: the
//! caller feeds it what arrived and the current time, and sends what it
//! answers.

pub mod laws;
pub mod lemmas;
pub mod model;
pub mod peer;
pub mod service;
pub mod timer;
pub mod wire;
