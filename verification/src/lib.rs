//! A verified model of a Substrate-style consensus laboratory: block and
//! header primitives with their SCALE framing, a sorted key/value world
//! state with a state transition function, a transaction pool with flood
//! control, slot-based leadership with longest-chain fork choice, a
//! GRANDPA-lite finality gadget and a discrete-event gossip network.
pub mod primitives;
pub mod collections;
pub mod protocol;
pub mod network;
pub mod simulation;
pub mod determinism;
