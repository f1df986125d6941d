//! The simulation as mathematics: the state of a simulation, and the
//! functions from state to state that scheduling an output and delivering
//! an input are. The simulator's contracts are written in them.

use crate::inbox::{earliest, put, Scheduled};
use crate::net::{endpoint, unspecified, NodeId, PeerId, SocketAddr};
use crate::protocol::{DisconnectReason, Input, Link, Output};
use crate::simulator::{Chance, Fault, Options, ALWAYS, EPHEMERAL_PORT};
use crate::time::{LocalDuration, LocalTime, MIN_LATENCY};
use vstd::prelude::*;

verus! {

/// An upper bound on every base latency, in milliseconds: the options give
/// the range in numbers of 64 bits.
pub open spec fn base_limit() -> int {
    0x1_0000_0000_0000_0000
}

/// The state of a simulation.
pub struct State {
    /// The inputs that wait, by delivery time.
    pub inbox: Map<LocalTime, Scheduled>,
    /// The base latency between two nodes.
    pub latencies: Map<(NodeId, NodeId), LocalDuration>,
    /// The connections that stand: for a local and a remote node, the local
    /// and the remote endpoint in use.
    pub connections: Map<(NodeId, NodeId), (SocketAddr, SocketAddr)>,
    /// The options the simulation was made with.
    pub opts: Options,
    /// When the simulation started.
    pub start_time: LocalTime,
    /// The time of the input delivered last.
    pub time: LocalTime,
}

/// Whether every connection stands for both of its sides, each with the
/// endpoints of the other in inverse order, and joins two nodes, not one
/// node with itself. The first endpoint of a connection is at its first
/// node, the second at its second.
pub open spec fn symmetric(connections: Map<(NodeId, NodeId), (SocketAddr, SocketAddr)>) -> bool {
    forall|a: NodeId, b: NodeId| #[trigger]
        connections.contains_key((a, b)) ==> {
            &&& a != b
            &&& connections.contains_key((b, a))
            &&& connections[(b, a)].0 == connections[(a, b)].1
            &&& connections[(b, a)].1 == connections[(a, b)].0
            &&& connections[(a, b)].0.ip == a
            &&& connections[(a, b)].1.ip == b
        }
}

/// Whether every base latency is the same in both directions, and below
/// the limit of base latencies.
pub open spec fn mutual(latencies: Map<(NodeId, NodeId), LocalDuration>) -> bool {
    forall|a: NodeId, b: NodeId| #[trigger]
        latencies.contains_key((a, b)) ==> {
            &&& latencies.contains_key((b, a))
            &&& latencies[(b, a)] == latencies[(a, b)]
            &&& latencies[(a, b)] < base_limit()
        }
}

impl State {
    /// What holds of the state of every simulation: no input waits in the
    /// past, a connection is known to both of its sides or to neither, and
    /// so is a base latency.
    pub open spec fn wf(self) -> bool {
        &&& self.inbox.dom().finite()
        &&& self.start_time <= self.time
        &&& forall|t: LocalTime| self.inbox.contains_key(t) ==> self.time <= t
        &&& symmetric(self.connections)
        &&& mutual(self.latencies)
    }

    /// The base latency between two nodes, where one was assigned.
    pub open spec fn base_latency(self, from: NodeId, to: NodeId) -> Option<LocalDuration> {
        if self.latencies.contains_key((from, to)) {
            Some(self.latencies[(from, to)])
        } else {
            None
        }
    }
}

/// Whether `latency` may be what one delivery takes between two nodes with
/// the base latency `base`. Without a base latency it is the minimum
/// latency. A base latency at or under the minimum is taken as it is. A
/// longer one varies: the delivery takes more than half of it and less than
/// twice as long.
pub open spec fn latency_within(base: Option<LocalDuration>, latency: LocalDuration) -> bool {
    match base {
        None => latency == MIN_LATENCY,
        Some(l) => if l <= MIN_LATENCY {
            latency == l
        } else {
            l - l / 2 < latency < 2 * l
        },
    }
}

/// Whether a draw makes an operation fail at the failure rate `rate`. Of
/// the draw's 64 bits the upper 52 count: they are a number below
/// [`ALWAYS`], and the operation fails where that number is below the rate.
pub open spec fn fails_at(rate: u64, draw: u64) -> bool {
    draw / 0x1000 < rate
}

/// The state after the node `node` closed its connection with `remote`.
/// Where the connection stands, it goes for both sides at once; the node
/// hears of it at once, with its own reason, and the remote side after
/// `latency`, with a reason of its own. Where none stands, nothing happens:
/// the other side was first.
pub open spec fn disconnected(
    s: State,
    node: NodeId,
    remote: PeerId,
    reason: DisconnectReason,
    latency: LocalDuration,
) -> State {
    if s.connections.contains_key((node, remote.ip)) {
        let local_addr = s.connections[(node, remote.ip)].0;
        let here = Scheduled { remote, node, input: Input::Disconnected(remote, reason) };
        let there = Scheduled {
            node: remote.ip,
            remote: local_addr,
            input: Input::Disconnected(
                local_addr,
                DisconnectReason::ConnectionError("remote end closed the connection"),
            ),
        };
        State {
            inbox: put(put(s.inbox, s.time as int, here), s.time + latency, there),
            connections: s.connections.remove((node, remote.ip)).remove((remote.ip, node)),
            ..s
        }
    } else {
        s
    }
}

/// The state after the output `out` of the node `node` was scheduled, with
/// `c` for what was left to chance.
pub open spec fn scheduled(s: State, node: NodeId, out: Output, c: Chance) -> State {
    match out {
        Output::Message(receiver, msg) => {
            if !s.connections.contains_key((node, receiver.ip)) {
                s
            } else if c.fails {
                disconnected(
                    s,
                    node,
                    receiver,
                    DisconnectReason::ConnectionError("unexpected I/O error"),
                    c.latency,
                )
            } else {
                let sender_addr = s.connections[(node, receiver.ip)].0;
                let entry = Scheduled {
                    remote: sender_addr,
                    node: receiver.ip,
                    input: Input::Received(sender_addr, msg),
                };
                State { inbox: put(s.inbox, s.time + c.latency, entry), ..s }
            }
        },
        Output::Connect(remote, _timeout) => {
            let local_addr = endpoint(node, c.port);
            let connecting = Scheduled { node, remote, input: Input::Connecting { addr: remote } };
            let inbox = put(s.inbox, s.time + MIN_LATENCY, connecting);
            if c.fails {
                if c.notify {
                    let failed = Scheduled {
                        node,
                        remote,
                        input: Input::Disconnected(
                            remote,
                            DisconnectReason::ConnectionError("failed to connect"),
                        ),
                    };
                    State { inbox: put(inbox, s.time + MIN_LATENCY, failed), ..s }
                } else {
                    State { inbox, ..s }
                }
            } else {
                let inbound = Scheduled {
                    node: remote.ip,
                    remote: local_addr,
                    input: Input::Connected {
                        addr: local_addr,
                        local_addr: remote,
                        link: Link::Inbound,
                    },
                };
                let outbound = Scheduled {
                    remote,
                    node,
                    input: Input::Connected { addr: remote, local_addr, link: Link::Outbound },
                };
                State {
                    inbox: put(put(inbox, s.time + c.latency, inbound), s.time + c.latency, outbound),
                    connections: s.connections.insert((node, remote.ip), (local_addr, remote)).insert(
                        (remote.ip, node),
                        (remote, local_addr),
                    ),
                    ..s
                }
            }
        },
        Output::Disconnect(remote, reason) => disconnected(s, node, remote, reason, c.latency),
        Output::SetTimeout(duration) => {
            let tick = Scheduled { node, remote: unspecified(), input: Input::Tick };
            State { inbox: put(s.inbox, s.time + duration, tick), ..s }
        },
        Output::Event(_) => s,
        Output::Shutdown => s,
    }
}

/// Whether the output `out` of the node `node` is one that no simulation
/// can go on from: a connection of the node to itself, or a shutdown.
pub open spec fn fatal(node: NodeId, out: Output) -> bool {
    match out {
        Output::Connect(remote, _) => remote.ip == node,
        Output::Shutdown => true,
        _ => false,
    }
}

/// Whether the random source may decide `c` when `out` is scheduled: the
/// port is an ephemeral one, the latency is one that the two nodes can have,
/// and at a failure rate of zero nothing fails, at a rate of [`ALWAYS`]
/// everything.
pub open spec fn admissible(s: State, node: NodeId, out: Output, c: Chance) -> bool {
    let sound = {
        &&& s.opts.failure_rate == 0 ==> !c.fails
        &&& s.opts.failure_rate >= ALWAYS ==> c.fails
    };
    match out {
        Output::Message(receiver, _) => s.connections.contains_key((node, receiver.ip)) ==> {
            &&& sound
            &&& latency_within(s.base_latency(node, receiver.ip), c.latency)
        },
        Output::Connect(remote, _) => {
            &&& sound
            &&& c.port >= EPHEMERAL_PORT
            &&& latency_within(s.base_latency(node, remote.ip), c.latency)
        },
        Output::Disconnect(remote, _) => s.connections.contains_key((node, remote.ip))
            ==> latency_within(s.base_latency(node, remote.ip), c.latency),
        _ => true,
    }
}

/// The longest that one delivery can take between two nodes with the base
/// latency `base`.
pub open spec fn longest_latency(base: Option<LocalDuration>) -> int {
    match base {
        Some(l) if l > MIN_LATENCY => 2 * l,
        _ => MIN_LATENCY as int,
    }
}

/// The longest that an input that `out` causes can be delayed.
pub open spec fn longest_delay(s: State, node: NodeId, out: Output) -> int {
    match out {
        Output::Message(remote, _) => longest_latency(s.base_latency(node, remote.ip)),
        Output::Connect(remote, _) => longest_latency(s.base_latency(node, remote.ip)),
        Output::Disconnect(remote, _) => longest_latency(s.base_latency(node, remote.ip)),
        Output::SetTimeout(duration) => duration as int,
        _ => 0,
    }
}

/// The longest that an input that `out` causes is delayed when chance
/// decides `c`; zero where `out` causes no input.
pub open spec fn delay_of(s: State, node: NodeId, out: Output, c: Chance) -> int {
    match out {
        Output::Message(remote, _) => if s.connections.contains_key((node, remote.ip)) {
            c.latency as int
        } else {
            0
        },
        Output::Connect(_, _) => if c.latency > MIN_LATENCY {
            c.latency as int
        } else {
            MIN_LATENCY as int
        },
        Output::Disconnect(remote, _) => if s.connections.contains_key((node, remote.ip)) {
            c.latency as int
        } else {
            0
        },
        Output::SetTimeout(duration) => duration as int,
        _ => 0,
    }
}

/// Why the output `out` of the node `node` cannot be scheduled, if it
/// cannot: it is fatal, or the clock cannot tell the time of what it causes.
pub open spec fn fault_of(s: State, node: NodeId, out: Output) -> Option<Fault> {
    match out {
        Output::Shutdown => Some(Fault::Shutdown),
        Output::Connect(remote, _) if remote.ip == node => Some(Fault::SelfConnection),
        _ => if room(s, longest_delay(s, node, out)) {
            None
        } else {
            Some(Fault::ClockOverflow)
        },
    }
}

/// The state after the outputs `outs` of the node `node` were scheduled one
/// after another, with `cs` for what was left to chance.
pub open spec fn scheduled_all(s: State, node: NodeId, outs: Seq<Output>, cs: Seq<Chance>) -> State
    decreases outs.len(),
{
    if outs.len() == 0 {
        s
    } else {
        scheduled(
            scheduled_all(s, node, outs.drop_last(), cs.drop_last()),
            node,
            outs.last(),
            cs.last(),
        )
    }
}

/// Whether the outputs `outs` of the node `node` can be scheduled one
/// after another, none of them at fault, with `cs` for what the random
/// source decides.
pub open spec fn admissible_all(s: State, node: NodeId, outs: Seq<Output>, cs: Seq<Chance>) -> bool
    decreases outs.len(),
{
    &&& cs.len() == outs.len()
    &&& outs.len() > 0 ==> {
        let before = scheduled_all(s, node, outs.drop_last(), cs.drop_last());
        &&& admissible_all(s, node, outs.drop_last(), cs.drop_last())
        &&& fault_of(before, node, outs.last()) is None
        &&& admissible(before, node, outs.last(), cs.last())
    }
}

/// Whether `latency` is a base latency that the options allow.
pub open spec fn in_range(opts: Options, latency: LocalDuration) -> bool {
    opts.latency.start <= latency < opts.latency.end
}

/// Whether the base latencies `latencies` come from those of the state
/// `s` by giving some to nodes of `nodes` that had none: what `s` has is
/// kept, and a new one lies in the range of the options, between two nodes
/// of `nodes`.
pub open spec fn assigned(
    s: State,
    latencies: Map<(NodeId, NodeId), LocalDuration>,
    nodes: Seq<NodeId>,
) -> bool {
    &&& forall|a: NodeId, b: NodeId| #[trigger]
        s.latencies.contains_key((a, b)) ==> latencies.contains_key((a, b)) && latencies[(a, b)]
            == s.latencies[(a, b)]
    &&& forall|a: NodeId, b: NodeId| #[trigger]
        latencies.contains_key((a, b)) && !s.latencies.contains_key((a, b)) ==> nodes.contains(a)
            && nodes.contains(b) && a != b && in_range(s.opts, latencies[(a, b)])
}

/// Whether the state `after` has the clock, the options and the base
/// latencies of the state `before`: scheduling changes none of them.
pub open spec fn kept(before: State, after: State) -> bool {
    &&& after.time == before.time
    &&& after.start_time == before.start_time
    &&& after.opts == before.opts
    &&& after.latencies == before.latencies
}

/// Whether the clock can tell the time of every input of one output that
/// is delayed by `delay` at most. One output causes three inputs at most,
/// and each may have to give way to every input that waits already.
pub open spec fn room(s: State, delay: int) -> bool {
    s.time + delay + (s.inbox.len() + 2) * MIN_LATENCY <= u128::MAX
}

/// The state after the earliest of the waiting inputs, which waits at
/// `time`, was taken out to be delivered.
pub open spec fn advanced(s: State, time: LocalTime) -> State {
    State { inbox: s.inbox.remove(time), time, ..s }
}

/// One move of a simulation: an output of a node is scheduled, with what
/// chance decided for it, or the input that waits at the given time is
/// delivered.
pub enum Move {
    /// The output of the node is scheduled, with this for what chance
    /// decides.
    Schedule(NodeId, Output, Chance),
    /// The input that waits at this time is delivered.
    Deliver(LocalTime),
}

/// Whether the simulation can make the move in the state `s`: it schedules
/// an output that is not at fault, with what the random source may decide
/// for it, or it delivers the earliest input.
pub open spec fn may(s: State, m: Move) -> bool {
    match m {
        Move::Schedule(node, out, c) => fault_of(s, node, out) is None && admissible(
            s,
            node,
            out,
            c,
        ),
        Move::Deliver(time) => earliest(s.inbox, time),
    }
}

/// The state after the move.
pub open spec fn moved(s: State, m: Move) -> State {
    match m {
        Move::Schedule(node, out, c) => scheduled(s, node, out, c),
        Move::Deliver(time) => advanced(s, time),
    }
}

/// The state after the moves, made one after another.
pub open spec fn run(s: State, moves: Seq<Move>) -> State
    decreases moves.len(),
{
    if moves.len() == 0 {
        s
    } else {
        moved(run(s, moves.drop_last()), moves.last())
    }
}

/// Whether the moves can be made one after another from the state `s`.
pub open spec fn runs(s: State, moves: Seq<Move>) -> bool
    decreases moves.len(),
{
    moves.len() > 0 ==> runs(s, moves.drop_last()) && may(run(s, moves.drop_last()), moves.last())
}

/// The moves that schedule the outputs `outs` of the node `node` one after
/// another, with `cs` for what chance decides.
pub open spec fn moves_of(node: NodeId, outs: Seq<Output>, cs: Seq<Chance>) -> Seq<Move> {
    Seq::new(outs.len(), |i: int| Move::Schedule(node, outs[i], cs[i]))
}

/// Whether one input at most is delivered in the moves.
pub open spec fn delivers_once(moves: Seq<Move>) -> bool {
    forall|i: int, j: int|
        0 <= i < j < moves.len() ==> !(moves[i] is Deliver && moves[j] is Deliver)
}

/// Whether an input is delivered in the moves.
pub open spec fn delivers(moves: Seq<Move>) -> bool {
    exists|i: int| 0 <= i < moves.len() && moves[i] is Deliver
}

/// Whether the moves, each of which schedules an output, lead from the
/// state `before` to the state `after`.
pub open spec fn scheduled_by(before: State, after: State, moves: Seq<Move>) -> bool {
    &&& runs(before, moves)
    &&& after == run(before, moves)
    &&& forall|i: int| 0 <= i < moves.len() ==> moves[i] is Schedule
}

/// The state `s` with the base latencies `latencies` in place of its own.
pub open spec fn with_latencies(s: State, latencies: Map<(NodeId, NodeId), LocalDuration>) -> State {
    State { latencies, ..s }
}

/// Whether one step of the simulation leads from the state `before` to the
/// state `after` by the moves `moves`. The step first gives base latencies
/// to peers that have none; from there the moves run, and they lead to
/// `after`. One input at most is delivered.
pub open spec fn stepped(before: State, after: State, moves: Seq<Move>) -> bool {
    &&& runs(with_latencies(before, after.latencies), moves)
    &&& after == run(with_latencies(before, after.latencies), moves)
    &&& delivers_once(moves)
}

} // verus!
