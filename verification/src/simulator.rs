//! A simple peer-to-peer network simulator. It stands where the reactor
//! stands in production, but does no I/O: it turns the outputs of the
//! protocol state machines into inputs that arrive later, on a virtual clock,
//! with latency and faults that a seeded random source decides.

use crate::inbox::{earliest, lemma_put, put, Inbox, Scheduled};
use crate::laws::{
    lemma_scheduled_all, lemma_scheduled_by_append, lemma_stepped, lemma_stepped_idle,
};
use crate::model::{
    admissible, admissible_all, advanced, assigned, base_limit, delay_of, delivers, disconnected,
    fails_at, fatal, fault_of, in_range, kept, latency_within, longest_delay, longest_latency,
    moves_of, room, run, scheduled, scheduled_all, scheduled_by, stepped, with_latencies, Move,
    State,
};
use crate::net::{NodeId, PeerId, SocketAddr};
use crate::protocol::{DisconnectReason, Input, Link, Output, Peer, Protocol};
use crate::random::{draw_u128, draw_u16_from, draw_u64, toss};
use crate::time::{LocalDuration, LocalTime, MIN_LATENCY};
use core::ops::Range;
use fastrand::Rng;
use std::collections::BTreeMap;
use vstd::prelude::*;

verus! {

/// The failure rate at which every attempt fails. A rate counts in steps of
/// `1 / ALWAYS`: at the rate `ALWAYS / 2` half of all draws fail an attempt.
pub const ALWAYS: u64 = 0x10_0000_0000_0000;

/// The lowest port that a connecting node is given for its own end.
pub const EPHEMERAL_PORT: u16 = 8192;

/// Simulation options.
pub struct Options {
    /// Minimum and maximum latency between nodes, in milliseconds. With an
    /// empty range every delivery takes the minimum latency.
    pub latency: Range<u64>,
    /// Probability that network I/O fails, as a share of [`ALWAYS`]: at `0`
    /// nothing fails, at [`ALWAYS`] or more everything does.
    pub failure_rate: u64,
}

impl Default for Options {
    fn default() -> (opts: Options)
        ensures
            opts.latency.start == 0,
            opts.latency.end == 0,
            opts.failure_rate == 0,
    {
        Options { latency: 0..0, failure_rate: 0 }
    }
}

/// What the random source decides when one output is scheduled. An output
/// reads only the parts that it leaves to chance.
#[derive(Clone, Copy, Debug, PartialEq, Eq, Structural)]
pub struct Chance {
    /// Whether the operation fails.
    pub fails: bool,
    /// Whether a connection attempt that fails tells the node so; else it
    /// hangs.
    pub notify: bool,
    /// The port that a connecting node is given for its own end.
    pub port: u16,
    /// How long the delivery takes.
    pub latency: LocalDuration,
}

/// An output that the simulation cannot go on from.
#[derive(Clone, Copy, Debug, PartialEq, Eq, Structural)]
pub enum Fault {
    /// A node asked to connect to itself.
    SelfConnection,
    /// A node shut down; what the network makes of that is not defined.
    Shutdown,
    /// An input would be due later than the clock can tell.
    ClockOverflow,
    /// An input is due at a node that is not among the peers.
    UnknownNode(NodeId),
}

/// Whether the peers `after` are as many as the peers `before` and live at
/// the same addresses, one by one.
pub open spec fn same_nodes<P>(before: Seq<Peer<P>>, after: Seq<Peer<P>>) -> bool {
    &&& after.len() == before.len()
    &&& forall|i: int| 0 <= i < before.len() ==> after[i].addr == before[i].addr
}

/// The addresses of the peers, one by one.
pub open spec fn nodes_of<P>(peers: Seq<Peer<P>>) -> Seq<NodeId> {
    peers.map_values(|p: Peer<P>| p.addr.ip)
}

/// Whether no two of the peers share an address.
pub open spec fn distinct<P>(peers: Seq<Peer<P>>) -> bool {
    forall|i: int, j: int| 0 <= i < j < peers.len() ==> peers[i].addr.ip != peers[j].addr.ip
}

/// Whether a machine handed the output over: some call of `drain` of a
/// machine of the kind `P` returned outputs with `out` among them.
pub open spec fn drained_from<P: Protocol>(out: Output) -> bool {
    exists|machine: &mut P, outs: Vec<Output>|
        #[trigger] call_ensures(P::drain, (machine,), outs) && outs@.contains(out)
}

/// Whether the input was handed to a machine at `time`: some call of `step`
/// of a machine of the kind `P` was made with the two.
pub open spec fn handed_to<P: Protocol>(input: Input, time: LocalTime) -> bool {
    exists|machine: &mut P| #[trigger] call_ensures(P::step, (machine, input, time), ())
}

/// Whether every output that the moves schedule is one that the machine of
/// a peer handed over: its node is among `nodes`, and the output came from a
/// call of `drain`.
pub open spec fn from_peers<P: Protocol>(nodes: Seq<NodeId>, moves: Seq<Move>) -> bool {
    forall|k: int|
        0 <= k < moves.len() ==> (#[trigger] moves[k] matches Move::Schedule(node, out, _)
            ==> nodes.contains(node) && drained_from::<P>(out))
}

/// The input that the move at the place `k`, which delivers one, takes out
/// of the inbox, in the run of `moves` from `start`.
pub open spec fn delivered(start: State, moves: Seq<Move>, k: int) -> Scheduled {
    run(start, moves.take(k)).inbox[moves[k]->Deliver_0]
}

/// What a step owes for its moves, which run from `start` to `after` among
/// peers at `nodes`, and for its result `more`.
///
/// Where the step ends without a fault, an input was delivered, unless none
/// waited. An input that is delivered to a node among the peers was handed
/// to a machine, at the time it was due; where its node is not among the
/// peers, that is the step's fault, and no other fault is reported for a
/// node that is not there. Any other fault is the fault of an output that a
/// peer's machine handed over, in the state that the step ends in.
pub open spec fn outcome<P: Protocol>(
    start: State,
    after: State,
    nodes: Seq<NodeId>,
    moves: Seq<Move>,
    more: Result<bool, Fault>,
) -> bool {
    &&& more is Ok ==> delivers(moves) || after.inbox == Map::<LocalTime, Scheduled>::empty()
    &&& forall|k: int|
        0 <= k < moves.len() && #[trigger] moves[k] is Deliver ==> {
            let entry = delivered(start, moves, k);
            if nodes.contains(entry.node) {
                handed_to::<P>(entry.input, moves[k]->Deliver_0)
            } else {
                more == Err::<bool, Fault>(Fault::UnknownNode(entry.node))
            }
        }
    &&& more matches Err(fault) ==> match fault {
        Fault::UnknownNode(node) => exists|k: int|
            0 <= k < moves.len() && #[trigger] moves[k] is Deliver && delivered(
                start,
                moves,
                k,
            ).node == node && !nodes.contains(node),
        _ => exists|node: NodeId, out: Output|
            nodes.contains(node) && drained_from::<P>(out) && #[trigger] fault_of(after, node, out)
                == Some(fault),
    }
}

/// Whether the moves schedule outputs of the node `node`: the first of
/// `outs`, one move for each, in the order of `outs`.
pub open spec fn schedules(moves: Seq<Move>, node: NodeId, outs: Seq<Output>) -> bool {
    &&& moves.len() <= outs.len()
    &&& forall|k: int|
        0 <= k < moves.len() ==> (#[trigger] moves[k] matches Move::Schedule(n, out, _) && n
            == node && out == outs[k])
}

/// Whether the moves are one round of the peer: its machine, in the state
/// it has in `peer`, was asked for its outputs, and the moves schedule all
/// of them, in order.
pub open spec fn round<P: Protocol>(peer: Peer<P>, moves: Seq<Move>) -> bool {
    exists|machine: &mut P, outs: Vec<Output>|
        {
            &&& mut_ref_current(machine) == peer.protocol
            &&& #[trigger] call_ensures(P::drain, (machine,), outs)
            &&& schedules(moves, peer.addr.ip, outs@)
            &&& moves.len() == outs.len()
        }
}

/// Whether the moves are a round of the peer that a fault broke off: its
/// machine was asked for its outputs, the moves schedule the first of them,
/// and the next is at fault in the state `after`.
pub open spec fn broken_round<P: Protocol>(
    peer: Peer<P>,
    moves: Seq<Move>,
    after: State,
    fault: Fault,
) -> bool {
    exists|machine: &mut P, outs: Vec<Output>|
        {
            &&& mut_ref_current(machine) == peer.protocol
            &&& #[trigger] call_ensures(P::drain, (machine,), outs)
            &&& schedules(moves, peer.addr.ip, outs@)
            &&& moves.len() < outs.len()
            &&& fault_of(after, peer.addr.ip, outs@[moves.len() as int]) == Some(fault)
        }
}

/// Whether the moves are a round of a machine at the node `node`, whatever
/// state the machine was in.
pub open spec fn late_round<P: Protocol>(node: NodeId, moves: Seq<Move>) -> bool {
    exists|machine: &mut P, outs: Vec<Output>|
        {
            &&& #[trigger] call_ensures(P::drain, (machine,), outs)
            &&& schedules(moves, node, outs@)
            &&& moves.len() == outs.len()
        }
}

/// Whether the moves are a round of a machine at the node `node` that a
/// fault broke off.
pub open spec fn late_broken_round<P: Protocol>(
    node: NodeId,
    moves: Seq<Move>,
    after: State,
    fault: Fault,
) -> bool {
    exists|machine: &mut P, outs: Vec<Output>|
        {
            &&& #[trigger] call_ensures(P::drain, (machine,), outs)
            &&& schedules(moves, node, outs@)
            &&& moves.len() < outs.len()
            &&& fault_of(after, node, outs@[moves.len() as int]) == Some(fault)
        }
}

/// Whether the moves begin with rounds of the first peers, one round for
/// each, in the order of the peers: the round of the peer at the place `r`
/// is the moves from `cuts[r]` up to `cuts[r + 1]`.
pub open spec fn rounds<P: Protocol>(peers: Seq<Peer<P>>, moves: Seq<Move>, cuts: Seq<int>) -> bool {
    &&& 1 <= cuts.len() <= peers.len() + 1
    &&& cuts[0] == 0
    &&& cuts.last() <= moves.len()
    &&& forall|r: int|
        0 <= r < cuts.len() - 1 ==> {
            &&& 0 <= #[trigger] cuts[r]
            &&& cuts[r] <= cuts[r + 1]
            &&& cuts[r + 1] <= cuts.last()
            &&& round::<P>(peers[r], moves.subrange(cuts[r], cuts[r + 1]))
        }
}

/// The course of a step among the peers `peers`, by the moves `moves`, to
/// the state `after` and the result `more`.
///
/// The step begins with the rounds of the peers, in their order; `cuts`
/// says where each round ends. Where no round is broken off, every peer
/// has its round, and if an input waits then, it is delivered next. Where
/// the node of the input is a peer's, one more round follows, of the
/// machine at that node, and with it the step ends. A fault breaks off the
/// round in which it comes up, and the step with it.
pub open spec fn course<P: Protocol>(
    peers: Seq<Peer<P>>,
    start: State,
    after: State,
    moves: Seq<Move>,
    cuts: Seq<int>,
    more: Result<bool, Fault>,
) -> bool {
    let k = cuts.last();
    &&& rounds::<P>(peers, moves, cuts)
    &&& if more is Ok || delivers(moves) {
        &&& cuts.len() == peers.len() + 1
        &&& if k == moves.len() {
            more is Ok
        } else {
            &&& moves[k] is Deliver
            &&& nodes_of(peers).contains(delivered(start, moves, k).node) ==> match more {
                Ok(_) => late_round::<P>(delivered(start, moves, k).node, moves.skip(k + 1)),
                Err(fault) => late_broken_round::<P>(
                    delivered(start, moves, k).node,
                    moves.skip(k + 1),
                    after,
                    fault,
                ),
            }
            &&& !nodes_of(peers).contains(delivered(start, moves, k).node) ==> k + 1
                == moves.len()
        }
    } else {
        &&& cuts.len() <= peers.len()
        &&& more matches Err(fault) && broken_round::<P>(
            peers[cuts.len() - 1],
            moves.skip(k),
            after,
            fault,
        )
    }
}

/// The course of a step that a fault breaks off in the round of a peer.
proof fn lemma_course_broken<P: Protocol>(
    peers: Seq<Peer<P>>,
    start: State,
    after: State,
    first: Seq<Move>,
    cuts: Seq<int>,
    last: Seq<Move>,
    fault: Fault,
)
    requires
        rounds::<P>(peers, first, cuts),
        cuts.last() == first.len(),
        cuts.len() <= peers.len(),
        forall|k: int| 0 <= k < first.len() ==> (#[trigger] first[k]) is Schedule,
        forall|k: int| 0 <= k < last.len() ==> (#[trigger] last[k]) is Schedule,
        broken_round::<P>(peers[cuts.len() - 1], last, after, fault),
    ensures
        course::<P>(peers, start, after, first + last, cuts, Err::<bool, Fault>(fault)),
{
    let moves = first + last;
    lemma_rounds_push::<P>(peers, first, cuts, last, false);
    assert(moves.skip(first.len() as int) =~= last);
    assert(!delivers(moves)) by {
        if delivers(moves) {
            let k = choose|k: int| 0 <= k < moves.len() && moves[k] is Deliver;
            if k < first.len() {
                assert(moves[k] == first[k]);
            } else {
                assert(moves[k] == last[k - first.len()]);
            }
        }
    }
}

/// The course of a step in which every peer has its round and no input
/// waits after them.
proof fn lemma_course_idle<P: Protocol>(
    peers: Seq<Peer<P>>,
    start: State,
    after: State,
    first: Seq<Move>,
    cuts: Seq<int>,
)
    requires
        rounds::<P>(peers, first, cuts),
        cuts.last() == first.len(),
        cuts.len() == peers.len() + 1,
    ensures
        course::<P>(peers, start, after, first, cuts, Ok::<bool, Fault>(false)),
{
}

/// The course of a step in which every peer has its round and then an
/// input is delivered.
proof fn lemma_course_delivered<P: Protocol>(
    peers: Seq<Peer<P>>,
    start: State,
    mid: State,
    after: State,
    first: Seq<Move>,
    cuts: Seq<int>,
    time: LocalTime,
    then: Seq<Move>,
    more: Result<bool, Fault>,
)
    requires
        rounds::<P>(peers, first, cuts),
        cuts.last() == first.len(),
        cuts.len() == peers.len() + 1,
        scheduled_by(start, mid, first),
        nodes_of(peers).contains(mid.inbox[time].node) ==> match more {
            Ok(_) => late_round::<P>(mid.inbox[time].node, then),
            Err(fault) => late_broken_round::<P>(mid.inbox[time].node, then, after, fault),
        },
        !nodes_of(peers).contains(mid.inbox[time].node) ==> then.len() == 0,
    ensures
        course::<P>(peers, start, after, first.push(Move::Deliver(time)) + then, cuts, more),
{
    let moves = first.push(Move::Deliver(time)) + then;
    let tail = seq![Move::Deliver(time)] + then;
    let k = first.len() as int;
    assert(moves =~= first + tail);
    lemma_rounds_push::<P>(peers, first, cuts, tail, false);
    assert(moves[k] == Move::Deliver(time));
    assert(moves.take(k) =~= first);
    assert(moves.skip(k + 1) =~= then);
    assert(delivers(moves));
    assert(delivered(start, moves, k) == mid.inbox[time]);
}

/// Rounds stay rounds when more moves follow, and one more round makes
/// one more.
proof fn lemma_rounds_push<P: Protocol>(
    peers: Seq<Peer<P>>,
    first: Seq<Move>,
    cuts: Seq<int>,
    more: Seq<Move>,
    whole: bool,
)
    requires
        rounds::<P>(peers, first, cuts),
        cuts.last() == first.len(),
        whole ==> cuts.len() <= peers.len() && round::<P>(peers[cuts.len() - 1], more),
    ensures
        rounds::<P>(peers, first + more, cuts),
        whole ==> rounds::<P>(peers, first + more, cuts.push((first.len() + more.len()) as int)),
{
    let all = first + more;
    assert forall|r: int| 0 <= r < cuts.len() - 1 implies {
        &&& 0 <= #[trigger] cuts[r]
        &&& cuts[r] <= cuts[r + 1]
        &&& cuts[r + 1] <= cuts.last()
        &&& round::<P>(peers[r], all.subrange(cuts[r], cuts[r + 1]))
    } by {
        assert(round::<P>(peers[r], first.subrange(cuts[r], cuts[r + 1])));
        assert(all.subrange(cuts[r], cuts[r + 1]) =~= first.subrange(cuts[r], cuts[r + 1]));
    }
    if whole {
        let longer = cuts.push((first.len() + more.len()) as int);
        assert forall|r: int| 0 <= r < longer.len() - 1 implies {
            &&& 0 <= #[trigger] longer[r]
            &&& longer[r] <= longer[r + 1]
            &&& longer[r + 1] <= longer.last()
            &&& round::<P>(peers[r], all.subrange(longer[r], longer[r + 1]))
        } by {
            if r < cuts.len() - 1 {
                assert(0 <= cuts[r]);
                assert(round::<P>(peers[r], first.subrange(cuts[r], cuts[r + 1])));
                assert(longer[r] == cuts[r] && longer[r + 1] == cuts[r + 1]);
                assert(all.subrange(cuts[r], cuts[r + 1]) =~= first.subrange(
                    cuts[r],
                    cuts[r + 1],
                ));
            } else {
                assert(longer[r] == first.len());
                assert(all.subrange(longer[r], longer[r + 1]) =~= more);
            }
        }
    }
}

/// A step that delivers no input owes nothing for a delivery.
proof fn lemma_outcome_idle<P: Protocol>(
    start: State,
    after: State,
    nodes: Seq<NodeId>,
    moves: Seq<Move>,
    more: Result<bool, Fault>,
)
    requires
        scheduled_by(start, after, moves),
        more is Ok ==> after.inbox == Map::<LocalTime, Scheduled>::empty(),
        more matches Err(fault) ==> !(fault is UnknownNode) && exists|node: NodeId, out: Output|
            nodes.contains(node) && drained_from::<P>(out) && #[trigger] fault_of(after, node, out)
                == Some(fault),
    ensures
        outcome::<P>(start, after, nodes, moves, more),
{
}

/// A step that delivers the input `entry` at `time`, after the moves
/// `first` and before the moves `then`, owes what `outcome` says.
proof fn lemma_outcome_delivered<P: Protocol>(
    start: State,
    first: Seq<Move>,
    mid: State,
    time: LocalTime,
    then: Seq<Move>,
    after: State,
    nodes: Seq<NodeId>,
    more: Result<bool, Fault>,
)
    requires
        scheduled_by(start, mid, first),
        earliest(mid.inbox, time),
        scheduled_by(advanced(mid, time), after, then),
        from_peers::<P>(nodes, first),
        from_peers::<P>(nodes, then),
        nodes.contains(mid.inbox[time].node) ==> handed_to::<P>(mid.inbox[time].input, time),
        !nodes.contains(mid.inbox[time].node) ==> more == Err::<bool, Fault>(
            Fault::UnknownNode(mid.inbox[time].node),
        ),
        more matches Err(fault) ==> (fault is UnknownNode ==> !nodes.contains(
            mid.inbox[time].node,
        )) && (!(fault is UnknownNode) ==> exists|node: NodeId, out: Output|
            nodes.contains(node) && drained_from::<P>(out) && #[trigger] fault_of(after, node, out)
                == Some(fault)),
    ensures
        from_peers::<P>(nodes, first.push(Move::Deliver(time)) + then),
        outcome::<P>(start, after, nodes, first.push(Move::Deliver(time)) + then, more),
{
    let moves = first.push(Move::Deliver(time)) + then;
    let at = first.len() as int;
    assert(moves.take(at) =~= first);
    assert(moves[at] == Move::Deliver(time));
    assert(delivered(start, moves, at) == mid.inbox[time]);
    assert forall|k: int| 0 <= k < moves.len() && k != at implies #[trigger] moves[k] is Schedule
        && (moves[k] matches Move::Schedule(node, out, _) ==> nodes.contains(node)
        && drained_from::<P>(out)) by {
        if k < at {
            assert(moves[k] == first[k]);
        } else {
            assert(moves[k] == then[k - at - 1]);
        }
    }
    assert(delivers(moves));
}

/// Moves from peers, made after others from peers, are from peers.
proof fn lemma_from_peers_append<P: Protocol>(nodes: Seq<NodeId>, first: Seq<Move>, then: Seq<Move>)
    requires
        from_peers::<P>(nodes, first),
        from_peers::<P>(nodes, then),
    ensures
        from_peers::<P>(nodes, first + then),
{
    assert forall|k: int| 0 <= k < (first + then).len() implies (#[trigger] (first + then)[k] matches Move::Schedule(
        node,
        out,
        _,
    ) ==> nodes.contains(node) && drained_from::<P>(out)) by {
        if k < first.len() {
            assert((first + then)[k] == first[k]);
        } else {
            assert((first + then)[k] == then[k - first.len()]);
        }
    }
}

/// A peer-to-peer node simulation.
pub struct Simulation {
    /// Inbox of inputs to be delivered by the simulation.
    inbox: Inbox,
    /// Simulated latencies between nodes.
    latencies: BTreeMap<(NodeId, NodeId), LocalDuration>,
    /// Map of existing connections between nodes. It keeps the local port
    /// used when a connection was made: each connection is made from a port
    /// of its own.
    connections: BTreeMap<(NodeId, NodeId), (SocketAddr, SocketAddr)>,
    /// Simulation options.
    opts: Options,
    /// Start time of simulation.
    start_time: LocalTime,
    /// Current simulation time. Updated when a scheduled input is delivered.
    time: LocalTime,
    /// The random source.
    rng: Rng,
}

impl View for Simulation {
    type V = State;

    closed spec fn view(&self) -> State {
        State {
            inbox: self.inbox@,
            latencies: self.latencies@,
            connections: self.connections@,
            opts: self.opts,
            start_time: self.start_time,
            time: self.time,
        }
    }
}

/// Decide whether an operation fails, from the failure rate and a draw of
/// the random source.
pub fn is_failure(rate: u64, draw: u64) -> (fails: bool)
    ensures
        fails == fails_at(rate, draw),
        rate == 0 ==> !fails,
        rate >= ALWAYS ==> fails,
{
    assert(draw >> 12 == draw / 0x1000) by (bit_vector);
    (draw >> 12) < rate
}

/// One delivery's latency from the base latency of the two nodes, a coin
/// toss and an amount drawn at random: on `more` the amount is added to the
/// base latency, else it is taken off.
pub fn vary(base: LocalDuration, more: bool, amount: u128) -> (latency: LocalDuration)
    requires
        MIN_LATENCY < base < base_limit(),
        amount < if more {
            base
        } else {
            base / 2
        },
    ensures
        latency == if more {
            base + amount
        } else {
            base - amount
        },
        latency_within(Some(base), latency),
{
    if more {
        base + amount
    } else {
        base - amount
    }
}

/// The place of the peer that lives at `node`, if there is one.
pub fn find<P>(peers: &Vec<Peer<P>>, node: NodeId) -> (at: Option<usize>)
    ensures
        match at {
            Some(i) => i < peers.len() && peers[i as int].addr.ip == node && forall|j: int|
                0 <= j < i ==> peers[j].addr.ip != node,
            None => forall|j: int| 0 <= j < peers.len() ==> peers[j].addr.ip != node,
        },
{
    let mut i: usize = 0;
    while i < peers.len()
        invariant
            i <= peers.len(),
            forall|j: int| 0 <= j < i ==> peers[j].addr.ip != node,
        decreases peers.len() - i,
    {
        if peers[i].addr.ip == node {
            return Some(i);
        }
        i += 1;
    }
    None
}

impl Simulation {
    /// The random source that the simulation draws from.
    pub closed spec fn source(&self) -> Rng {
        self.rng
    }

    /// Create a new simulation that starts at `time` and draws from `rng`.
    pub fn new(time: LocalTime, rng: Rng, opts: Options) -> (sim: Simulation)
        ensures
            sim.wf(),
            sim.source() == rng,
            sim@ == (State {
                inbox: Map::empty(),
                latencies: Map::empty(),
                connections: Map::empty(),
                opts,
                start_time: time,
                time,
            }),
    {
        Simulation {
            inbox: Inbox::new(),
            latencies: BTreeMap::new(),
            connections: BTreeMap::new(),
            opts,
            start_time: time,
            time,
            rng,
        }
    }

    /// What holds of every simulation: see [`State::wf`].
    pub open spec fn wf(&self) -> bool {
        self@.wf()
    }

    /// Check whether the simulation is done, ie. there are no more inputs to
    /// deliver.
    pub fn is_done(&self) -> (done: bool)
        ensures
            done == (self@.inbox == Map::<LocalTime, Scheduled>::empty()),
    {
        self.inbox.is_empty()
    }

    /// Check whether the simulation has settled, ie. the only inputs left
    /// to deliver are (periodic) timeouts.
    pub fn is_settled(&self) -> (settled: bool)
        ensures
            settled == (forall|t: LocalTime|
                self@.inbox.contains_key(t) ==> self@.inbox[t].input is Tick),
    {
        self.inbox.only_ticks()
    }

    /// Total amount of simulated time elapsed.
    pub fn elapsed(&self) -> (d: LocalDuration)
        requires
            self.wf(),
        ensures
            d == self@.time - self@.start_time,
    {
        self.time - self.start_time
    }

    /// The number of inputs that wait to be delivered.
    pub fn pending(&self) -> (n: usize)
        ensures
            n == self@.inbox.len(),
    {
        self.inbox.len()
    }

    /// The endpoints of the connection that `local` has with `remote`, its
    /// own first, if the connection stands.
    pub fn connection(&self, local: NodeId, remote: NodeId) -> (ends: Option<
        (SocketAddr, SocketAddr),
    >)
        ensures
            ends == if self@.connections.contains_key((local, remote)) {
                Some(self@.connections[(local, remote)])
            } else {
                None
            },
    {
        match self.connections.get(&(local, remote)) {
            Some(ends) => Some(*ends),
            None => None,
        }
    }

    /// Whether no connection stands.
    pub fn is_unconnected(&self) -> (none: bool)
        ensures
            none == (self@.connections == Map::<(NodeId, NodeId), (SocketAddr, SocketAddr)>::empty()),
    {
        proof {
            if self@.connections.is_empty() {
                assert(self@.connections =~= Map::empty());
            }
        }
        self.connections.is_empty()
    }

    /// The base latency between two nodes, if one was assigned.
    pub fn base_latency(&self, from: NodeId, to: NodeId) -> (base: Option<LocalDuration>)
        ensures
            base == self@.base_latency(from, to),
    {
        match self.latencies.get(&(from, to)) {
            Some(l) => Some(*l),
            None => None,
        }
    }

    /// The current time of the simulation.
    pub fn time(&self) -> (t: LocalTime)
        ensures
            t == self@.time,
    {
        self.time
    }

    /// Get the latency between two nodes for one delivery. The minimum
    /// latency between nodes is 1 millisecond.
    pub fn latency(&self, from: NodeId, to: NodeId) -> (latency: LocalDuration)
        requires
            self.wf(),
        ensures
            latency_within(self@.base_latency(from, to), latency),
    {
        match self.latencies.get(&(from, to)) {
            Some(l) => {
                let l: LocalDuration = *l;
                if l <= MIN_LATENCY {
                    l
                } else {
                    // Create variance in the latency. The resulting latency
                    // will be between half, and two times the base latency.
                    if toss(&self.rng) {
                        // More latency.
                        vary(l, true, draw_u128(&self.rng, 0, l))
                    } else {
                        // Less latency.
                        vary(l, false, draw_u128(&self.rng, 0, l / 2))
                    }
                }
            },
            None => MIN_LATENCY,
        }
    }

    /// Put an input into the inbox, to be delivered `delay` from now.
    fn post(&mut self, delay: LocalDuration, entry: Scheduled)
        requires
            old(self).wf(),
            old(self)@.time + delay + old(self)@.inbox.len() * MIN_LATENCY <= u128::MAX,
        ensures
            final(self).wf(),
            final(self)@ == (State {
                inbox: put(old(self)@.inbox, old(self)@.time + delay, entry),
                ..old(self)@
            }),
            final(self)@.inbox.len() == old(self)@.inbox.len() + 1,
    {
        proof {
            lemma_put(self@.inbox, self@.time + delay, entry);
        }
        self.inbox.insert(self.time + delay, entry);
    }

    /// Close the connection of `node` with `remote`, if it stands.
    fn disconnect(
        &mut self,
        node: NodeId,
        remote: PeerId,
        reason: DisconnectReason,
        latency: LocalDuration,
    )
        requires
            old(self).wf(),
            old(self)@.connections.contains_key((node, remote.ip)) ==> room(
                old(self)@,
                latency as int,
            ),
        ensures
            final(self).wf(),
            final(self)@ == disconnected(old(self)@, node, remote, reason, latency),
    {
        // It's possible for disconnects to happen simultaneously from both
        // ends, hence it can be that a node will try to disconnect a remote
        // that is already disconnected from the other side.
        if let Some((local_addr, _)) = self.connections.remove(&(node, remote.ip)) {
            self.connections.remove(&(remote.ip, node));
            proof {
                let before = old(self)@.connections;
                let after = self@.connections;
                assert(after == before.remove((node, remote.ip)).remove((remote.ip, node)));
                assert forall|a: NodeId, b: NodeId| #[trigger]
                    after.contains_key((a, b)) implies before.contains_key((a, b))
                    && after.contains_key((b, a)) && after[(a, b)] == before[(a, b)] && after[(
                    b,
                    a,
                )] == before[(b, a)] by {
                    assert(before.contains_key((a, b)));
                    assert((a, b) != (node, remote.ip) && (a, b) != (remote.ip, node));
                    assert((b, a) != (node, remote.ip) && (b, a) != (remote.ip, node));
                }
            }
            // The local node is immediately disconnected.
            self.post(0, Scheduled { remote, node, input: Input::Disconnected(remote, reason) });
            // The remote node receives the disconnection with some delay.
            self.post(
                latency,
                Scheduled {
                    node: remote.ip,
                    remote: local_addr,
                    input: Input::Disconnected(
                        local_addr,
                        DisconnectReason::ConnectionError("remote end closed the connection"),
                    ),
                },
            );
        } else {
            assert(self@.connections =~= old(self)@.connections);
        }
    }

    /// Process a protocol output event from a node, with `chance` for what
    /// the random source would decide.
    pub fn apply(&mut self, node: NodeId, out: Output, chance: Chance)
        requires
            old(self).wf(),
            !fatal(node, out),
            room(old(self)@, delay_of(old(self)@, node, out, chance)),
        ensures
            final(self).wf(),
            final(self)@ == scheduled(old(self)@, node, out, chance),
    {
        match out {
            Output::Message(receiver, msg) => {
                // If the other end has disconnected the sender with some
                // latency, there may not be a connection remaining to use.
                let sender = match self.connections.get(&(node, receiver.ip)) {
                    Some(pair) => Some(pair.0),
                    None => None,
                };
                if let Some(sender_addr) = sender {
                    if chance.fails {
                        self.disconnect(
                            node,
                            receiver,
                            DisconnectReason::ConnectionError("unexpected I/O error"),
                            chance.latency,
                        );
                    } else {
                        self.post(
                            chance.latency,
                            Scheduled {
                                remote: sender_addr,
                                node: receiver.ip,
                                input: Input::Received(sender_addr, msg),
                            },
                        );
                    }
                }
            },
            Output::Connect(remote, _timeout) => {
                // Create an ephemeral sockaddr for the connecting (local) node.
                let local_addr = SocketAddr::new(node, chance.port);
                self.post(
                    MIN_LATENCY,
                    Scheduled { node, remote, input: Input::Connecting { addr: remote } },
                );
                if chance.fails {
                    // Sometimes, the protocol gets a failure input, other
                    // times it just hangs.
                    if chance.notify {
                        self.post(
                            MIN_LATENCY,
                            Scheduled {
                                node,
                                remote,
                                input: Input::Disconnected(
                                    remote,
                                    DisconnectReason::ConnectionError("failed to connect"),
                                ),
                            },
                        );
                    }
                } else {
                    self.connections.insert((node, remote.ip), (local_addr, remote));
                    self.connections.insert((remote.ip, node), (remote, local_addr));
                    // The remote will get the connection attempt with some latency.
                    self.post(
                        chance.latency,
                        Scheduled {
                            node: remote.ip,
                            remote: local_addr,
                            input: Input::Connected {
                                addr: local_addr,
                                local_addr: remote,
                                link: Link::Inbound,
                            },
                        },
                    );
                    // The local node will have established the connection
                    // after some latency.
                    self.post(
                        chance.latency,
                        Scheduled {
                            remote,
                            node,
                            input: Input::Connected {
                                addr: remote,
                                local_addr,
                                link: Link::Outbound,
                            },
                        },
                    );
                }
            },
            Output::Disconnect(remote, reason) => {
                self.disconnect(node, remote, reason, chance.latency);
            },
            Output::SetTimeout(duration) => {
                self.post(
                    duration,
                    Scheduled {
                        node,
                        // The remote is not applicable for this type of output.
                        remote: SocketAddr::unspecified(),
                        input: Input::Tick,
                    },
                );
            },
            Output::Event(_) => {
                // Ignored.
            },
            Output::Shutdown => {},
        }
    }

    /// Draw from the random source what the output `out` of the node `node`
    /// leaves to chance, and nothing else: for a message over a connection
    /// that stands, whether it fails and the latency; for a connection
    /// attempt the port, the latency, whether it fails and, where it does,
    /// whether the node is told; for the end of a connection that stands,
    /// the latency.
    pub fn draw(&self, node: NodeId, out: &Output) -> (chance: Chance)
        requires
            self.wf(),
        ensures
            admissible(self@, node, *out, chance),
            delay_of(self@, node, *out, chance) <= longest_delay(self@, node, *out),
    {
        let mut chance = Chance { fails: false, notify: false, port: 0, latency: MIN_LATENCY };
        match out {
            Output::Message(receiver, _) => {
                if self.connections.contains_key(&(node, receiver.ip)) {
                    // Randomly fail to send a message based on the failure rate.
                    chance.fails = self.is_fallible();
                    chance.latency = self.latency(node, receiver.ip);
                }
            },
            Output::Connect(remote, _) => {
                chance.port = draw_u16_from(&self.rng, EPHEMERAL_PORT);
                chance.latency = self.latency(node, remote.ip);
                // Randomly fail to connect based on the failure rate.
                chance.fails = self.is_fallible();
                if chance.fails {
                    chance.notify = toss(&self.rng);
                }
            },
            Output::Disconnect(remote, _) => {
                if self.connections.contains_key(&(node, remote.ip)) {
                    chance.latency = self.latency(node, remote.ip);
                }
            },
            _ => {},
        }
        chance
    }

    /// Process a protocol output event from a node.
    pub fn schedule(&mut self, node: &NodeId, out: Output)
        requires
            old(self).wf(),
            fault_of(old(self)@, *node, out) is None,
        ensures
            final(self).wf(),
            exists|c: Chance|
                admissible(old(self)@, *node, out, c) && final(self)@ == scheduled(
                    old(self)@,
                    *node,
                    out,
                    c,
                ),
    {
        let chance = self.draw(*node, &out);
        self.apply(*node, out, chance);
    }

    /// Whether the clock can tell the time of every input of one output
    /// that is delayed by `delay` at most.
    fn has_room(&self, delay: LocalDuration) -> (b: bool)
        requires
            self.wf(),
        ensures
            b == room(self@, delay as int),
    {
        let waiting: usize = self.inbox.len();
        match self.time.checked_add(delay) {
            Some(due) => match due.checked_add(waiting as u128) {
                Some(last) => last <= u128::MAX - 2,
                None => false,
            },
            None => false,
        }
    }

    /// The longest that one delivery can take between two nodes.
    fn longest_latency(&self, from: NodeId, to: NodeId) -> (longest: LocalDuration)
        requires
            self.wf(),
        ensures
            longest == longest_latency(self@.base_latency(from, to)),
    {
        match self.latencies.get(&(from, to)) {
            Some(l) => if *l > MIN_LATENCY {
                2 * *l
            } else {
                MIN_LATENCY
            },
            None => MIN_LATENCY,
        }
    }

    /// Process a protocol output event from a node, unless the simulation
    /// cannot go on from it: then the simulation stays as it is, and the
    /// fault says why.
    pub fn try_schedule(&mut self, node: &NodeId, out: Output) -> (done: Result<(), Fault>)
        requires
            old(self).wf(),
        ensures
            final(self).wf(),
            match done {
                Ok(_) => {
                    &&& fault_of(old(self)@, *node, out) is None
                    &&& exists|c: Chance|
                        admissible(old(self)@, *node, out, c) && final(self)@ == scheduled(
                            old(self)@,
                            *node,
                            out,
                            c,
                        )
                },
                Err(fault) => {
                    &&& fault_of(old(self)@, *node, out) == Some(fault)
                    &&& final(self)@ == old(self)@
                },
            },
    {
        let longest = match &out {
            Output::Shutdown => {
                return Err(Fault::Shutdown);
            },
            Output::Connect(remote, _) => {
                if remote.ip == *node {
                    return Err(Fault::SelfConnection);
                }
                self.longest_latency(*node, remote.ip)
            },
            Output::Message(remote, _) => self.longest_latency(*node, remote.ip),
            Output::Disconnect(remote, _) => self.longest_latency(*node, remote.ip),
            Output::SetTimeout(duration) => *duration,
            Output::Event(_) => 0,
        };
        if !self.has_room(longest) {
            return Err(Fault::ClockOverflow);
        }
        self.schedule(node, out);
        Ok(())
    }

    /// Initialize peers: each peer's machine is initialized, once, at the
    /// time of the simulation. The peers stay where they are. What a
    /// machine does when it is initialized is its own affair: of each machine
    /// the state before and the state after are what one call of its
    /// `initialize` with that time leads from and to.
    pub fn initialize<P: Protocol>(&self, peers: &mut Vec<Peer<P>>)
        ensures
            final(peers).len() == old(peers).len(),
            forall|i: int|
                #![trigger old(peers)[i]]
                0 <= i < old(peers).len() ==> {
                    &&& final(peers)[i].addr == old(peers)[i].addr
                    &&& exists|machine: &mut P|
                        {
                            &&& mut_ref_current(machine) == old(peers)[i].protocol
                            &&& mut_ref_future(machine) == final(peers)[i].protocol
                            &&& #[trigger] call_ensures(
                                P::initialize,
                                (machine, self@.time),
                                (),
                            )
                        }
                },
    {
        let time = self.time;
        let n = peers.len();
        let mut i: usize = 0;
        while i < n
            invariant
                i <= n,
                n == peers.len(),
                n == old(peers).len(),
                time == self@.time,
                forall|j: int|
                    #![trigger old(peers)[j]]
                    0 <= j < i ==> {
                        &&& peers[j].addr == old(peers)[j].addr
                        &&& exists|machine: &mut P|
                            {
                                &&& mut_ref_current(machine) == old(peers)[j].protocol
                                &&& mut_ref_future(machine) == peers[j].protocol
                                &&& #[trigger] call_ensures(
                                    P::initialize,
                                    (machine, self@.time),
                                    (),
                                )
                            }
                    },
                forall|j: int| i <= j < n ==> peers[j] == old(peers)[j],
            decreases n - i,
        {
            let ghost before = peers@;
            peers[i].protocol.initialize(time);
            proof {
                assert forall|j: int|
                    #![trigger old(peers)[j]]
                    0 <= j < i + 1 implies {
                    &&& peers[j].addr == old(peers)[j].addr
                    &&& exists|machine: &mut P|
                        {
                            &&& mut_ref_current(machine) == old(peers)[j].protocol
                            &&& mut_ref_future(machine) == peers[j].protocol
                            &&& #[trigger] call_ensures(
                                P::initialize,
                                (machine, self@.time),
                                (),
                            )
                        }
                } by {
                    if j < i {
                        assert(peers[j] == before[j]);
                    }
                }
            }
            i += 1;
        }
        proof {
            assert forall|j: int|
                #![trigger old(peers)[j]]
                0 <= j < old(peers).len() implies {
                &&& final(peers)[j].addr == old(peers)[j].addr
                &&& exists|machine: &mut P|
                    {
                        &&& mut_ref_current(machine) == old(peers)[j].protocol
                        &&& mut_ref_future(machine) == final(peers)[j].protocol
                        &&& #[trigger] call_ensures(P::initialize, (machine, self@.time), ())
                    }
            } by {
                assert(peers[j] == final(peers)[j]);
                let machine = choose|machine: &mut P|
                    {
                        &&& mut_ref_current(machine) == old(peers)[j].protocol
                        &&& mut_ref_future(machine) == peers[j].protocol
                        &&& #[trigger] call_ensures(P::initialize, (machine, self@.time), ())
                    };
                assert(mut_ref_current(machine) == old(peers)[j].protocol);
                assert(mut_ref_future(machine) == final(peers)[j].protocol);
                assert(call_ensures(P::initialize, (machine, self@.time), ()));
            }
        }
    }

    /// Give a base latency, drawn from the range of the options, to every two
    /// of the nodes that have none yet, the same in both directions. A base
    /// latency, once given, stays.
    pub fn assign_latencies(&mut self, nodes: &Vec<NodeId>)
        requires
            old(self).wf(),
            old(self)@.opts.latency.start < old(self)@.opts.latency.end,
        ensures
            final(self).wf(),
            final(self)@ == (State { latencies: final(self)@.latencies, ..old(self)@ }),
            forall|a: NodeId, b: NodeId| #[trigger]
                old(self)@.latencies.contains_key((a, b)) ==> final(self)@.latencies.contains_key(
                    (a, b),
                ) && final(self)@.latencies[(a, b)] == old(self)@.latencies[(a, b)],
            forall|i: int, j: int|
                0 <= i < nodes.len() && 0 <= j < nodes.len() && nodes[i] != nodes[j]
                    ==> final(self)@.latencies.contains_key((nodes[i], nodes[j])),
            forall|a: NodeId, b: NodeId| #[trigger]
                final(self)@.latencies.contains_key((a, b)) && !old(self)@.latencies.contains_key(
                    (a, b),
                ) ==> nodes@.contains(a) && nodes@.contains(b) && a != b && in_range(
                    old(self)@.opts,
                    final(self)@.latencies[(a, b)],
                ),
    {
        let low: u128 = self.opts.latency.start as u128;
        let high: u128 = self.opts.latency.end as u128;
        let n = nodes.len();
        let mut i: usize = 0;
        while i < n
            invariant
                n == nodes.len(),
                i <= n,
                low == self@.opts.latency.start,
                high == self@.opts.latency.end,
                low < high,
                self.wf(),
                self@ == (State { latencies: self@.latencies, ..old(self)@ }),
                assigned(old(self)@, self@.latencies, nodes@),
                forall|p: int, q: int|
                    0 <= p < q < n && p < i && nodes[p] != nodes[q]
                        ==> self@.latencies.contains_key((nodes[p], nodes[q])),
            decreases n - i,
        {
            let mut j: usize = i + 1;
            while j < n
                invariant
                    n == nodes.len(),
                    i < j <= n,
                    low == self@.opts.latency.start,
                    high == self@.opts.latency.end,
                    low < high,
                    self.wf(),
                    self@ == (State { latencies: self@.latencies, ..old(self)@ }),
                    assigned(old(self)@, self@.latencies, nodes@),
                    forall|p: int, q: int|
                        0 <= p < q < n && (p < i || (p == i && q < j)) && nodes[p] != nodes[q]
                            ==> self@.latencies.contains_key((nodes[p], nodes[q])),
                decreases n - j,
            {
                let from = nodes[i];
                let to = nodes[j];
                if from != to {
                    let latency = draw_u128(&self.rng, low, high);
                    let ghost before = self@.latencies;
                    if !self.latencies.contains_key(&(from, to)) {
                        self.latencies.insert((from, to), latency);
                    }
                    if !self.latencies.contains_key(&(to, from)) {
                        self.latencies.insert((to, from), latency);
                    }
                    proof {
                        let after = self@.latencies;
                        assert(nodes@[i as int] == from && nodes@[j as int] == to);
                        if before.contains_key((from, to)) {
                            assert(before.contains_key((to, from)));
                            assert(after =~= before);
                        } else {
                            assert(!before.contains_key((to, from)));
                            assert(after =~= before.insert((from, to), latency).insert(
                                (to, from),
                                latency,
                            ));
                        }
                    }
                }
                j += 1;
            }
            i += 1;
        }
        proof {
            assert forall|p: int, q: int|
                0 <= p < nodes.len() && 0 <= q < nodes.len() && nodes[p] != nodes[q] implies self@.latencies.contains_key(
                (nodes[p], nodes[q]),
            ) by {
                if p < q {
                } else {
                    assert(self@.latencies.contains_key((nodes[q], nodes[p])));
                }
            }
        }
    }

    /// Process the output events of a node, one after another, up to the
    /// first that the simulation cannot go on from.
    pub fn schedule_all(&mut self, node: &NodeId, outs: Vec<Output>) -> (done: Result<(), Fault>)
        requires
            old(self).wf(),
        ensures
            final(self).wf(),
            kept(old(self)@, final(self)@),
            match done {
                Ok(_) => exists|cs: Seq<Chance>|
                    admissible_all(old(self)@, *node, outs@, cs) && final(self)@ == scheduled_all(
                        old(self)@,
                        *node,
                        outs@,
                        cs,
                    ),
                Err(fault) => exists|k: int, cs: Seq<Chance>|
                    {
                        &&& 0 <= k < outs.len()
                        &&& admissible_all(old(self)@, *node, outs@.take(k), cs)
                        &&& final(self)@ == scheduled_all(old(self)@, *node, outs@.take(k), cs)
                        &&& fault_of(final(self)@, *node, outs@[k]) == Some(fault)
                    },
            },
    {
        let ghost all = outs@;
        let ghost cs = Seq::<Chance>::empty();
        assert(all.take(0) =~= Seq::<Output>::empty());
        for out in it: outs.into_iter()
            invariant
                self.wf(),
                kept(old(self)@, self@),
                it.seq() == all,
                admissible_all(old(self)@, *node, all.take(it.index()), cs),
                self@ == scheduled_all(old(self)@, *node, all.take(it.index()), cs),
        {
            let ghost before = self@;
            let ghost k = it.index();
            match self.try_schedule(node, out) {
                Ok(_) => {
                    proof {
                        let c = choose|c: Chance|
                            admissible(before, *node, out, c) && self@ == scheduled(
                                before,
                                *node,
                                out,
                                c,
                            );
                        assert(all.take(k + 1).drop_last() =~= all.take(k));
                        assert(cs.push(c).drop_last() =~= cs);
                        cs = cs.push(c);
                    }
                },
                Err(fault) => {
                    return Err(fault);
                },
            }
        }
        assert(all.take(all.len() as int) =~= all);
        Ok(())
    }

    /// Give every two of the peers a base latency, if the options ask for
    /// latency and the two have none.
    fn configure<P>(&mut self, peers: &Vec<Peer<P>>)
        requires
            old(self).wf(),
            distinct(peers@),
        ensures
            final(self).wf(),
            final(self)@ == with_latencies(old(self)@, final(self)@.latencies),
            assigned(old(self)@, final(self)@.latencies, nodes_of(peers@)),
            old(self)@.opts.latency.start < old(self)@.opts.latency.end ==> forall|i: int, j: int|
                0 <= i < peers.len() && 0 <= j < peers.len() && i != j
                    ==> final(self)@.latencies.contains_key(
                    (peers[i].addr.ip, peers[j].addr.ip),
                ),
            old(self)@.opts.latency.start >= old(self)@.opts.latency.end ==> final(self)@.latencies
                == old(self)@.latencies,
    {
        if self.opts.latency.start < self.opts.latency.end {
            let n = peers.len();
            let mut nodes: Vec<NodeId> = Vec::new();
            let mut i: usize = 0;
            while i < n
                invariant
                    i <= n,
                    n == peers.len(),
                    nodes@ == nodes_of(peers@).take(i as int),
                decreases n - i,
            {
                nodes.push(peers[i].addr.ip);
                proof {
                    assert(nodes@ =~= nodes_of(peers@).take(i + 1));
                }
                i += 1;
            }
            proof {
                assert(nodes@ =~= nodes_of(peers@));
            }
            self.assign_latencies(&nodes);
            proof {
                assert forall|i: int, j: int|
                    0 <= i < peers.len() && 0 <= j < peers.len() && i != j implies self@.latencies.contains_key(
                (peers[i].addr.ip, peers[j].addr.ip)) by {
                    assert(nodes@[i] == peers[i].addr.ip);
                    assert(nodes@[j] == peers[j].addr.ip);
                    if i < j {
                        assert(nodes@[i] != nodes@[j]);
                    } else {
                        assert(nodes@[j] != nodes@[i]);
                    }
                }
            }
        }
    }

    /// Schedule what the peer at the place `at` has queued: its machine
    /// hands over its outputs, and they are scheduled one after another, up
    /// to the first that is at fault.
    fn drain<P: Protocol>(&mut self, peers: &mut Vec<Peer<P>>, at: usize) -> (done: Result<
        (),
        Fault,
    >)
        requires
            old(self).wf(),
            at < old(peers).len(),
        ensures
            final(self).wf(),
            kept(old(self)@, final(self)@),
            same_nodes(old(peers)@, final(peers)@),
            forall|j: int|
                0 <= j < old(peers).len() && j != at ==> #[trigger] final(peers)[j] == old(
                    peers,
                )[j],
            exists|moves: Seq<Move>|
                {
                    &&& #[trigger] scheduled_by(old(self)@, final(self)@, moves)
                    &&& from_peers::<P>(nodes_of(old(peers)@), moves)
                    &&& match done {
                        Ok(_) => round::<P>(old(peers)[at as int], moves),
                        Err(fault) => broken_round::<P>(
                            old(peers)[at as int],
                            moves,
                            final(self)@,
                            fault,
                        ),
                    }
                },
            done matches Err(fault) ==> !(fault is UnknownNode) && exists|node: NodeId, out: Output|
                nodes_of(old(peers)@).contains(node) && drained_from::<P>(out) && #[trigger] fault_of(
                    final(self)@,
                    node,
                    out,
                ) == Some(fault),
    {
        let node = peers[at].addr.ip;
        let outs = peers[at].protocol.drain();
        let ghost handed = outs;
        let ghost all = outs@;
        let ghost nodes = nodes_of(old(peers)@);
        proof {
            assert(nodes[at as int] == node);
            assert forall|k: int| 0 <= k < all.len() implies drained_from::<P>(#[trigger] all[k]) by {
                assert(handed@.contains(all[k]));
            }
        }
        let done = self.schedule_all(&node, outs);
        proof {
            match done {
                Ok(_) => {
                    let cs = choose|cs: Seq<Chance>|
                        admissible_all(old(self)@, node, all, cs) && self@ == scheduled_all(
                            old(self)@,
                            node,
                            all,
                            cs,
                        );
                    lemma_scheduled_all(old(self)@, node, all, cs);
                    let moves = moves_of(node, all, cs);
                    assert(scheduled_by(old(self)@, self@, moves));
                    assert(from_peers::<P>(nodes, moves));
                    assert(schedules(moves, node, handed@));
                    assert(round::<P>(old(peers)[at as int], moves));
                },
                Err(fault) => {
                    let (k, cs) = choose|k: int, cs: Seq<Chance>|
                        0 <= k < all.len() && admissible_all(old(self)@, node, all.take(k), cs)
                            && self@ == scheduled_all(old(self)@, node, all.take(k), cs)
                            && fault_of(self@, node, all[k]) == Some(fault);
                    lemma_scheduled_all(old(self)@, node, all.take(k), cs);
                    let moves = moves_of(node, all.take(k), cs);
                    assert(scheduled_by(old(self)@, self@, moves));
                    assert forall|j: int| 0 <= j < moves.len() implies (#[trigger] moves[j] matches Move::Schedule(
                        n,
                        out,
                        _,
                    ) ==> nodes.contains(n) && drained_from::<P>(out)) by {
                        assert(all.take(k)[j] == all[j]);
                    }
                    assert(drained_from::<P>(all[k]));
                    assert(schedules(moves, node, handed@));
                    assert(broken_round::<P>(old(peers)[at as int], moves, self@, fault));
                },
            }
        }
        done
    }

    /// Process one scheduled input from the inbox, using the provided peers.
    /// This function should be called until it returns `Ok(false)`, or some
    /// desired state is reached. Returns `Ok(true)` if there are more inputs
    /// to process, and a fault where an output of a peer is one that the
    /// simulation cannot go on from, or an input is due at a node that is
    /// not among the peers.
    ///
    /// First every two peers get a base latency, if the options ask for
    /// latency and they have none. Then the outputs that the peers have
    /// queued are scheduled, peer by peer. Then the earliest input is taken
    /// out of the inbox, the clock moves to its time, the input goes to its
    /// node, and what the node queues on it is scheduled.
    ///
    /// What the machines do is their own affair. The contract says what the
    /// step makes of it: the moves from the state before (with base
    /// latencies given) to the state after; that each peer's machine, in the
    /// state it came in, was asked for its outputs, and all of them were
    /// scheduled in order, up to a fault; that the input delivered was
    /// handed to a machine at the time it was due, and that machine asked
    /// for its outputs; and which fault is reported when.
    #[verifier::loop_isolation(false)]
    pub fn step<P: Protocol>(&mut self, peers: &mut Vec<Peer<P>>) -> (more: Result<bool, Fault>)
        requires
            old(self).wf(),
            distinct(old(peers)@),
        ensures
            final(self).wf(),
            same_nodes(old(peers)@, final(peers)@),
            final(self)@.start_time == old(self)@.start_time,
            final(self)@.opts == old(self)@.opts,
            old(self)@.time <= final(self)@.time,
            assigned(old(self)@, final(self)@.latencies, nodes_of(old(peers)@)),
            old(self)@.opts.latency.start < old(self)@.opts.latency.end ==> forall|i: int, j: int|
                0 <= i < old(peers).len() && 0 <= j < old(peers).len() && i != j
                    ==> final(self)@.latencies.contains_key(
                    (old(peers)[i].addr.ip, old(peers)[j].addr.ip),
                ),
            old(self)@.opts.latency.start >= old(self)@.opts.latency.end ==> final(self)@.latencies
                == old(self)@.latencies,
            exists|moves: Seq<Move>, cuts: Seq<int>|
                {
                    &&& #[trigger] stepped(old(self)@, final(self)@, moves)
                    &&& from_peers::<P>(nodes_of(old(peers)@), moves)
                    &&& outcome::<P>(
                        with_latencies(old(self)@, final(self)@.latencies),
                        final(self)@,
                        nodes_of(old(peers)@),
                        moves,
                        more,
                    )
                    &&& #[trigger] course::<P>(
                        old(peers)@,
                        with_latencies(old(self)@, final(self)@.latencies),
                        final(self)@,
                        moves,
                        cuts,
                        more,
                    )
                },
            more matches Ok(more) ==> more == (final(self)@.inbox != Map::<
                LocalTime,
                Scheduled,
            >::empty()),
            old(peers).len() == 0 && old(self)@.inbox == Map::<LocalTime, Scheduled>::empty()
                ==> more == Ok::<bool, Fault>(false),
    {
        let n = peers.len();
        let ghost nodes = nodes_of(old(peers)@);
        self.configure(peers);
        let ghost configured = self@;
        let ghost mut first: Seq<Move> = Seq::empty();
        let ghost mut cuts: Seq<int> = seq![0int];
        // Schedule any messages in the pipes.
        let mut i: usize = 0;
        while i < n
            invariant
                i <= n,
                n == peers.len(),
                n == old(peers).len(),
                self.wf(),
                kept(configured, self@),
                configured == with_latencies(old(self)@, configured.latencies),
                same_nodes(old(peers)@, peers@),
                nodes_of(peers@) == nodes,
                scheduled_by(configured, self@, first),
                from_peers::<P>(nodes, first),
                rounds::<P>(old(peers)@, first, cuts),
                cuts.len() == i + 1,
                cuts.last() == first.len(),
                forall|j: int| i <= j < n ==> peers[j] == old(peers)[j],
            decreases n - i,
        {
            let ghost before = self@;
            let ghost peers_before = peers@;
            let done = self.drain(peers, i);
            proof {
                assert(nodes_of(peers@) =~= nodes);
                assert(peers_before[i as int] == old(peers)[i as int]);
                let more = choose|more: Seq<Move>|
                    {
                        &&& scheduled_by(before, self@, more)
                        &&& from_peers::<P>(nodes, more)
                        &&& match done {
                            Ok(_) => round::<P>(peers_before[i as int], more),
                            Err(fault) => broken_round::<P>(
                                peers_before[i as int],
                                more,
                                self@,
                                fault,
                            ),
                        }
                    };
                lemma_scheduled_by_append(configured, first, before, more, self@);
                lemma_from_peers_append::<P>(nodes, first, more);
                match done {
                    Ok(_) => {
                        lemma_rounds_push::<P>(old(peers)@, first, cuts, more, true);
                        cuts = cuts.push((first.len() + more.len()) as int);
                    },
                    Err(fault) => {
                        lemma_course_broken::<P>(
                            old(peers)@,
                            configured,
                            self@,
                            first,
                            cuts,
                            more,
                            fault,
                        );
                    },
                }
                first = first + more;
            }
            if let Err(fault) = done {
                proof {
                    lemma_stepped_idle(old(self)@, self@, first);
                    lemma_outcome_idle::<P>(
                        configured,
                        self@,
                        nodes,
                        first,
                        Err::<bool, Fault>(fault),
                    );
                }
                return Err(fault);
            }
            proof {
                assert forall|j: int| i + 1 <= j < n implies peers[j] == old(peers)[j] by {
                    assert(peers[j] == peers_before[j]);
                }
            }
            i += 1;
        }
        let ghost mid = self@;
        match self.advance() {
            Some((time, next)) => {
                let ghost delivered = self@;
                let ghost entry = next;
                let Scheduled { input, node, .. } = next;
                match find(peers, node) {
                    Some(at) => {
                        proof {
                            assert(nodes[at as int] == node);
                        }
                        peers[at].protocol.step(input, self.time);
                        proof {
                            assert(handed_to::<P>(entry.input, time));
                            assert(nodes_of(peers@) =~= nodes);
                        }
                        let ghost peers_before = peers@;
                        let done = self.drain(peers, at);
                        let more = match done {
                            Ok(_) => Ok(!self.is_done()),
                            Err(fault) => Err(fault),
                        };
                        proof {
                            assert(nodes_of(peers@) =~= nodes);
                            let then = choose|then: Seq<Move>|
                                {
                                    &&& scheduled_by(delivered, self@, then)
                                    &&& from_peers::<P>(nodes, then)
                                    &&& match done {
                                        Ok(_) => round::<P>(peers_before[at as int], then),
                                        Err(fault) => broken_round::<P>(
                                            peers_before[at as int],
                                            then,
                                            self@,
                                            fault,
                                        ),
                                    }
                                };
                            assert(peers_before[at as int].addr.ip == node);
                            match done {
                                Ok(_) => {
                                    assert(late_round::<P>(node, then));
                                },
                                Err(fault) => {
                                    assert(late_broken_round::<P>(node, then, self@, fault));
                                },
                            }
                            lemma_stepped(old(self)@, first, mid, time, then, self@);
                            lemma_outcome_delivered::<P>(
                                configured,
                                first,
                                mid,
                                time,
                                then,
                                self@,
                                nodes,
                                more,
                            );
                            lemma_course_delivered::<P>(
                                old(peers)@,
                                configured,
                                mid,
                                self@,
                                first,
                                cuts,
                                time,
                                then,
                                more,
                            );
                        }
                        return more;
                    },
                    None => {
                        proof {
                            assert(!nodes.contains(node)) by {
                                if nodes.contains(node) {
                                    let j = choose|j: int| 0 <= j < nodes.len() && nodes[j] == node;
                                    assert(peers[j].addr.ip == node);
                                }
                            }
                            lemma_stepped(old(self)@, first, mid, time, Seq::empty(), self@);
                            lemma_outcome_delivered::<P>(
                                configured,
                                first,
                                mid,
                                time,
                                Seq::empty(),
                                self@,
                                nodes,
                                Err::<bool, Fault>(Fault::UnknownNode(node)),
                            );
                            lemma_course_delivered::<P>(
                                old(peers)@,
                                configured,
                                mid,
                                self@,
                                first,
                                cuts,
                                time,
                                Seq::empty(),
                                Err::<bool, Fault>(Fault::UnknownNode(node)),
                            );
                        }
                        return Err(Fault::UnknownNode(node));
                    },
                }
            },
            None => {
                proof {
                    lemma_stepped_idle(old(self)@, self@, first);
                    lemma_outcome_idle::<P>(
                        configured,
                        self@,
                        nodes,
                        first,
                        Ok::<bool, Fault>(false),
                    );
                    lemma_course_idle::<P>(old(peers)@, configured, self@, first, cuts);
                }
            },
        }
        Ok(!self.is_done())
    }

    /// Take the earliest of the waiting inputs out of the inbox and move
    /// the clock to its time. Time only moves forwards.
    pub fn advance(&mut self) -> (next: Option<(LocalTime, Scheduled)>)
        requires
            old(self).wf(),
        ensures
            final(self).wf(),
            match next {
                Some((time, entry)) => {
                    &&& earliest(old(self)@.inbox, time)
                    &&& entry == old(self)@.inbox[time]
                    &&& old(self)@.time <= time
                    &&& final(self)@ == advanced(old(self)@, time)
                },
                None => {
                    &&& old(self)@.inbox == Map::<LocalTime, Scheduled>::empty()
                    &&& final(self)@ == old(self)@
                },
            },
    {
        let first = match self.inbox.next() {
            Some((time, _)) => Some(time),
            None => None,
        };
        match first {
            Some(time) => {
                self.time = time;
                let entry = self.inbox.remove(time);
                match entry {
                    Some(entry) => Some((time, entry)),
                    None => None,
                }
            },
            None => None,
        }
    }

    /// Check whether we should fail the next operation.
    fn is_fallible(&self) -> (fails: bool)
        ensures
            self@.opts.failure_rate == 0 ==> !fails,
            self@.opts.failure_rate >= ALWAYS ==> fails,
    {
        is_failure(self.opts.failure_rate, draw_u64(&self.rng))
    }
}

} // verus!
