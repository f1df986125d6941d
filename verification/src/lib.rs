//! The deterministic core of a peer-to-peer light client: the vocabulary of
//! inputs and outputs that a protocol state machine speaks, a discrete-event
//! network simulator that drives such machines on a virtual clock, and the
//! address book that holds the peers to start from.

pub mod address_book;
pub mod inbox;
pub mod laws;
pub mod model;
pub mod net;
pub mod protocol;
pub mod random;
pub mod simulator;
pub mod text;
pub mod text6;
pub mod time;
