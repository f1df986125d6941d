//! What a protocol state machine and its environment say to each other. The
//! machine does no I/O: what it wants done it emits as an [`Output`], and what
//! happened reaches it as an [`Input`].

use crate::net::{PeerId, SocketAddr};
use crate::time::{LocalDuration, LocalTime};
use vstd::prelude::*;

verus! {

/// The direction in which a connection was made, as seen from one side.
#[derive(Clone, Copy, Debug, PartialEq, Eq, Hash, Structural)]
pub enum Link {
    /// The remote side connected to us.
    Inbound,
    /// We connected to the remote side.
    Outbound,
}

/// Why a connection ended.
#[derive(Clone, Copy, Debug, PartialEq, Eq)]
pub enum DisconnectReason {
    /// The connection broke, or could not be made; the text says how.
    ConnectionError(&'static str),
    /// The peer broke a rule of the protocol.
    PeerMisbehaving(&'static str),
    /// The peer did not answer in time.
    PeerTimeout(&'static str),
    /// The peer turned out to be this node.
    SelfConnection,
    /// There are too many connections already.
    ConnectionLimit,
    /// The user asked for it.
    Command,
    /// Another reason.
    Other(&'static str),
}

/// An event of the environment that a protocol state machine reacts to.
#[derive(Clone, Debug, PartialEq, Eq)]
pub enum Input {
    /// A connection to `addr` is being attempted.
    Connecting { addr: PeerId },
    /// A connection with `addr` stands; `local_addr` is our end of it.
    Connected { addr: PeerId, local_addr: SocketAddr, link: Link },
    /// The peer sent us a message.
    Received(PeerId, Vec<u8>),
    /// A message of ours went out to the peer.
    Sent(PeerId, Vec<u8>),
    /// The connection with the peer ended.
    Disconnected(PeerId, DisconnectReason),
    /// A timer went off.
    Tick,
}

/// An action that a protocol state machine asks of its environment.
#[derive(Clone, Debug, PartialEq, Eq)]
pub enum Output {
    /// Send a message to the peer.
    Message(PeerId, Vec<u8>),
    /// Connect to the peer, giving up after the timeout.
    Connect(PeerId, LocalDuration),
    /// Close the connection with the peer.
    Disconnect(PeerId, DisconnectReason),
    /// Deliver a [`Input::Tick`] after this long.
    SetTimeout(LocalDuration),
    /// Something worth telling an observer; it causes nothing.
    Event(Vec<u8>),
    /// The machine is done for good.
    Shutdown,
}

/// A protocol state machine. One call of `step` is one transition; the
/// machine never blocks, and whatever it wants of its environment it queues
/// as outputs, which `drain` hands over in the order they were queued.
pub trait Protocol {
    /// Make the machine ready; it may queue its first outputs.
    fn initialize(&mut self, time: LocalTime);

    /// Take one input at the time `time`.
    fn step(&mut self, input: Input, time: LocalTime);

    /// Hand over the outputs queued so far, oldest first, and leave the
    /// queue empty.
    fn drain(&mut self) -> Vec<Output>;
}

/// A protocol instance together with the address it lives at.
pub struct Peer<P> {
    /// The node's own endpoint.
    pub addr: SocketAddr,
    /// Its state machine.
    pub protocol: P,
}

} // verus!
