//! What holds of every simulation, whatever the protocols do and whatever
//! the random source decides. The laws speak of the states of a simulation
//! and of the functions from state to state that the simulator's contracts
//! are written in.

use crate::inbox::{earliest, lemma_put, put, Scheduled};
use crate::net::{endpoint, unspecified, NodeId, PeerId};
use crate::protocol::{DisconnectReason, Input, Output};
use crate::model::{
    admissible, admissible_all, advanced, delay_of, disconnected, fatal, kept, latency_within,
    delivers, fault_of, longest_delay, may, moved, moves_of, room, run, runs, scheduled,
    scheduled_all,
    scheduled_by, stepped, symmetric, with_latencies, Move, State,
};
use crate::simulator::{Chance, Fault, ALWAYS};
use crate::time::{LocalDuration, LocalTime, MIN_LATENCY};
use vstd::prelude::*;

verus! {

/// An input that is put into the inbox of a well-formed state, to be
/// delivered now or later, leaves the state well-formed.
proof fn lemma_posted(s: State, delay: int, entry: Scheduled)
    requires
        s.wf(),
        0 <= delay,
        s.time + delay + s.inbox.len() * MIN_LATENCY <= u128::MAX,
    ensures
        (State { inbox: put(s.inbox, s.time + delay, entry), ..s }).wf(),
        put(s.inbox, s.time + delay, entry).len() == s.inbox.len() + 1,
        forall|t: LocalTime| #[trigger]
            s.inbox.contains_key(t) ==> put(s.inbox, s.time + delay, entry).contains_key(t) && put(
                s.inbox,
                s.time + delay,
                entry,
            )[t] == s.inbox[t],
{
    lemma_put(s.inbox, s.time + delay, entry);
}

/// The end of a connection leaves a well-formed state well-formed. Clock,
/// options and base latencies stay as they are, no input that waits is lost,
/// and neither side has the connection any more.
pub proof fn lemma_disconnected(
    s: State,
    node: NodeId,
    remote: PeerId,
    reason: DisconnectReason,
    latency: LocalDuration,
)
    requires
        s.wf(),
        s.connections.contains_key((node, remote.ip)) ==> room(s, latency as int),
    ensures
        disconnected(s, node, remote, reason, latency).wf(),
        kept(s, disconnected(s, node, remote, reason, latency)),
        !disconnected(s, node, remote, reason, latency).connections.contains_key(
            (node, remote.ip),
        ),
        !disconnected(s, node, remote, reason, latency).connections.contains_key(
            (remote.ip, node),
        ),
        forall|t: LocalTime| #[trigger]
            s.inbox.contains_key(t) ==> disconnected(
                s,
                node,
                remote,
                reason,
                latency,
            ).inbox.contains_key(t) && disconnected(s, node, remote, reason, latency).inbox[t]
                == s.inbox[t],
{
    if s.connections.contains_key((node, remote.ip)) {
        let local_addr = s.connections[(node, remote.ip)].0;
        let here = Scheduled { remote, node, input: Input::Disconnected(remote, reason) };
        let there = Scheduled {
            node: remote.ip,
            remote: local_addr,
            input: Input::Disconnected(
                local_addr,
                DisconnectReason::ConnectionError("remote end closed the connection"),
            ),
        };
        let cut = State {
            connections: s.connections.remove((node, remote.ip)).remove((remote.ip, node)),
            ..s
        };
        assert(symmetric(cut.connections)) by {
            assert forall|a: NodeId, b: NodeId| #[trigger]
                cut.connections.contains_key((a, b)) implies s.connections.contains_key((a, b))
                && cut.connections.contains_key((b, a)) by {
                assert((a, b) != (node, remote.ip) && (a, b) != (remote.ip, node));
                assert((b, a) != (node, remote.ip) && (b, a) != (remote.ip, node));
            }
        }
        lemma_posted(cut, 0, here);
        let first = State { inbox: put(cut.inbox, cut.time as int, here), ..cut };
        lemma_posted(first, latency as int, there);
    } else {
        assert(!s.connections.contains_key((remote.ip, node)));
    }
}

/// Scheduling an output leaves a well-formed state well-formed. Clock,
/// options and base latencies stay as they are, and no input that waits is
/// lost or replaced.
pub proof fn lemma_scheduled(s: State, node: NodeId, out: Output, c: Chance)
    requires
        s.wf(),
        !fatal(node, out),
        room(s, delay_of(s, node, out, c)),
    ensures
        scheduled(s, node, out, c).wf(),
        kept(s, scheduled(s, node, out, c)),
        forall|t: LocalTime| #[trigger]
            s.inbox.contains_key(t) ==> scheduled(s, node, out, c).inbox.contains_key(t)
                && scheduled(s, node, out, c).inbox[t] == s.inbox[t],
{
    match out {
        Output::Message(receiver, msg) => {
            if s.connections.contains_key((node, receiver.ip)) {
                if c.fails {
                    lemma_disconnected(
                        s,
                        node,
                        receiver,
                        DisconnectReason::ConnectionError("unexpected I/O error"),
                        c.latency,
                    );
                } else {
                    let sender_addr = s.connections[(node, receiver.ip)].0;
                    lemma_posted(
                        s,
                        c.latency as int,
                        Scheduled {
                            remote: sender_addr,
                            node: receiver.ip,
                            input: Input::Received(sender_addr, msg),
                        },
                    );
                }
            }
        },
        Output::Connect(remote, _timeout) => {
            let local_addr = endpoint(node, c.port);
            let connecting = Scheduled { node, remote, input: Input::Connecting { addr: remote } };
            lemma_posted(s, MIN_LATENCY as int, connecting);
            let first = State { inbox: put(s.inbox, s.time + MIN_LATENCY, connecting), ..s };
            if c.fails {
                if c.notify {
                    lemma_posted(
                        first,
                        MIN_LATENCY as int,
                        Scheduled {
                            node,
                            remote,
                            input: Input::Disconnected(
                                remote,
                                DisconnectReason::ConnectionError("failed to connect"),
                            ),
                        },
                    );
                }
            } else {
                let joined = State {
                    connections: s.connections.insert((node, remote.ip), (local_addr, remote)).insert(
                        (remote.ip, node),
                        (remote, local_addr),
                    ),
                    ..first
                };
                assert(symmetric(joined.connections));
                let inbound = Scheduled {
                    node: remote.ip,
                    remote: local_addr,
                    input: Input::Connected {
                        addr: local_addr,
                        local_addr: remote,
                        link: crate::protocol::Link::Inbound,
                    },
                };
                lemma_posted(joined, c.latency as int, inbound);
                let second = State {
                    inbox: put(joined.inbox, joined.time + c.latency, inbound),
                    ..joined
                };
                lemma_posted(
                    second,
                    c.latency as int,
                    Scheduled {
                        remote,
                        node,
                        input: Input::Connected {
                            addr: remote,
                            local_addr,
                            link: crate::protocol::Link::Outbound,
                        },
                    },
                );
            }
        },
        Output::Disconnect(remote, reason) => {
            lemma_disconnected(s, node, remote, reason, c.latency);
        },
        Output::SetTimeout(duration) => {
            lemma_posted(
                s,
                duration as int,
                Scheduled { node, remote: unspecified(), input: Input::Tick },
            );
        },
        Output::Event(_) => {},
        Output::Shutdown => {},
    }
}

/// Whatever chance may decide for an output, it delays no input longer
/// than the longest delay of the output.
pub proof fn lemma_delay_bounded(s: State, node: NodeId, out: Output, c: Chance)
    requires
        admissible(s, node, out, c),
    ensures
        delay_of(s, node, out, c) <= longest_delay(s, node, out),
{
}

/// A run of moves, one part after another, is the run of the second part
/// from where the first ends.
pub proof fn lemma_run_append(s: State, first: Seq<Move>, then: Seq<Move>)
    ensures
        run(s, first + then) == run(run(s, first), then),
        runs(s, first + then) == (runs(s, first) && runs(run(s, first), then)),
    decreases then.len(),
{
    if then.len() == 0 {
        assert(first + then =~= first);
    } else {
        lemma_run_append(s, first, then.drop_last());
        assert((first + then).drop_last() =~= first + then.drop_last());
        assert((first + then).last() == then.last());
    }
}

/// Scheduling the outputs of a node one after another is a run of moves,
/// one for each output.
pub proof fn lemma_scheduled_all(s: State, node: NodeId, outs: Seq<Output>, cs: Seq<Chance>)
    requires
        admissible_all(s, node, outs, cs),
    ensures
        runs(s, moves_of(node, outs, cs)),
        run(s, moves_of(node, outs, cs)) == scheduled_all(s, node, outs, cs),
        forall|i: int| 0 <= i < outs.len() ==> #[trigger] moves_of(node, outs, cs)[i] is Schedule,
    decreases outs.len(),
{
    let moves = moves_of(node, outs, cs);
    if outs.len() > 0 {
        lemma_scheduled_all(s, node, outs.drop_last(), cs.drop_last());
        assert(moves.drop_last() =~= moves_of(node, outs.drop_last(), cs.drop_last()));
        assert(moves.last() == Move::Schedule(node, outs.last(), cs.last()));
    }
}

/// Moves that schedule outputs, made after others that do, schedule
/// outputs all together.
pub proof fn lemma_scheduled_by_append(
    s: State,
    first: Seq<Move>,
    mid: State,
    then: Seq<Move>,
    after: State,
)
    requires
        scheduled_by(s, mid, first),
        scheduled_by(mid, after, then),
    ensures
        scheduled_by(s, after, first + then),
{
    lemma_run_append(s, first, then);
}

/// A step in which no input is delivered: outputs are scheduled, and that
/// is all.
pub proof fn lemma_stepped_idle(before: State, after: State, moves: Seq<Move>)
    requires
        scheduled_by(with_latencies(before, after.latencies), after, moves),
    ensures
        stepped(before, after, moves),
        !delivers(moves),
{
}

/// A step in which an input is delivered: outputs are scheduled, the
/// earliest input is delivered, and outputs are scheduled again.
pub proof fn lemma_stepped(
    before: State,
    first: Seq<Move>,
    mid: State,
    time: LocalTime,
    then: Seq<Move>,
    after: State,
)
    requires
        scheduled_by(with_latencies(before, after.latencies), mid, first),
        earliest(mid.inbox, time),
        scheduled_by(advanced(mid, time), after, then),
    ensures
        stepped(before, after, first.push(Move::Deliver(time)) + then),
        delivers(first.push(Move::Deliver(time)) + then),
{
    let start = with_latencies(before, after.latencies);
    let deliver = seq![Move::Deliver(time)];
    let moves = first.push(Move::Deliver(time)) + then;
    assert(deliver.drop_last() =~= Seq::<Move>::empty());
    assert(deliver.last() == Move::Deliver(time));
    assert(run(mid, deliver.drop_last()) == mid);
    assert(runs(mid, deliver.drop_last()));
    assert(run(mid, deliver) == advanced(mid, time));
    assert(runs(mid, deliver));
    lemma_run_append(start, first, deliver);
    assert(first + deliver =~= first.push(Move::Deliver(time)));
    lemma_run_append(start, first.push(Move::Deliver(time)), then);
    assert(moves[first.len() as int] is Deliver);
    assert forall|i: int, j: int| 0 <= i < j < moves.len() implies !(moves[i] is Deliver
        && moves[j] is Deliver) by {
        if i < first.len() {
            assert(moves[i] == first[i]);
        }
        if j > first.len() {
            assert(moves[j] == then[j - first.len() - 1]);
        }
    }
}

/// Delivering the earliest input leaves a well-formed state well-formed,
/// and the clock does not go back.
pub proof fn lemma_advanced(s: State, time: LocalTime)
    requires
        s.wf(),
        earliest(s.inbox, time),
    ensures
        advanced(s, time).wf(),
        s.time <= time,
        advanced(s, time).time == time,
{
}

/// Every state of a run is well-formed, and the clock of a later state is
/// not behind the clock of an earlier one.
proof fn lemma_run(s: State, moves: Seq<Move>, i: int)
    requires
        s.wf(),
        runs(s, moves),
        0 <= i <= moves.len(),
    ensures
        runs(s, moves.take(i)),
        run(s, moves).wf(),
        run(s, moves.take(i)).time <= run(s, moves).time,
    decreases moves.len(),
{
    assert(moves.take(moves.len() as int) =~= moves);
    if moves.len() > 0 {
        let init = moves.drop_last();
        lemma_run(s, init, init.len() as int);
        assert(init.take(init.len() as int) =~= init);
        match moves.last() {
            Move::Schedule(node, out, c) => {
                lemma_delay_bounded(run(s, init), node, out, c);
                lemma_scheduled(run(s, init), node, out, c);
            },
            Move::Deliver(time) => {
                lemma_advanced(run(s, init), time);
            },
        }
        if i < moves.len() {
            lemma_run(s, init, i);
            assert(moves.take(i) =~= init.take(i));
        }
    }
}

/// Time only moves forwards. In a run of a simulation, whatever is
/// scheduled and delivered, the clock of a later state is not behind the
/// clock of an earlier one. The clock shows the time of the input delivered
/// last, so each input is delivered at a time at or after that of the input
/// delivered before it.
pub proof fn law_time_moves_forwards(s: State, moves: Seq<Move>, i: int, j: int)
    requires
        s.wf(),
        runs(s, moves),
        0 <= i <= j <= moves.len(),
    ensures
        run(s, moves.take(j)).wf(),
        run(s, moves.take(i)).time <= run(s, moves.take(j)).time,
        j > 0 ==> (moves[j - 1] matches Move::Deliver(time) ==> run(s, moves.take(j)).time == time),
        i > 0 && (moves[i - 1] is Deliver) && (moves[j - 1] is Deliver) ==> moves[i - 1]->Deliver_0
            <= moves[j - 1]->Deliver_0,
{
    lemma_run(s, moves, j);
    lemma_run(s, moves.take(j), i);
    assert(moves.take(j).take(i) =~= moves.take(i));
    if j > 0 {
        assert(moves.take(j).drop_last() =~= moves.take(j - 1));
        assert(moves.take(j).last() == moves[j - 1]);
    }
    if i > 0 {
        assert(moves.take(i).drop_last() =~= moves.take(i - 1));
        assert(moves.take(i).last() == moves[i - 1]);
    }
}

/// Nothing that waits is lost. Whatever move a simulation makes, every
/// input that waits before it waits after it, at the same time and
/// unchanged, but for the one input that the move delivers.
pub proof fn law_nothing_lost(s: State, m: Move, t: LocalTime)
    requires
        s.wf(),
        may(s, m),
        s.inbox.contains_key(t),
        m != Move::Deliver(t),
    ensures
        moved(s, m).inbox.contains_key(t),
        moved(s, m).inbox[t] == s.inbox[t],
{
    match m {
        Move::Schedule(node, out, c) => {
            lemma_delay_bounded(s, node, out, c);
            lemma_scheduled(s, node, out, c);
        },
        Move::Deliver(_) => {},
    }
}

/// Connections are symmetric. After a connection attempt of `node` to
/// `remote` that does not fail, both sides have the connection, each with
/// the endpoints of the other in inverse order, and the table as a whole is
/// symmetric.
pub proof fn law_connect_both_sides(
    s: State,
    node: NodeId,
    remote: PeerId,
    timeout: LocalDuration,
    c: Chance,
)
    requires
        s.wf(),
        remote.ip != node,
        !c.fails,
    ensures
        ({
            let after = scheduled(s, node, Output::Connect(remote, timeout), c);
            let local_addr = endpoint(node, c.port);
            &&& after.connections.contains_key((node, remote.ip))
            &&& after.connections[(node, remote.ip)] == (local_addr, remote)
            &&& after.connections.contains_key((remote.ip, node))
            &&& after.connections[(remote.ip, node)] == (remote, local_addr)
            &&& symmetric(after.connections)
        }),
{
    let after = scheduled(s, node, Output::Connect(remote, timeout), c);
    assert(symmetric(after.connections));
}

/// After the end of a connection neither side has it: whichever of the two
/// nodes closes it, and whether or not it stood, the table holds no entry
/// for the two nodes in either direction, every other connection stands as
/// before, and the table is symmetric.
pub proof fn law_disconnect_both_sides(
    s: State,
    node: NodeId,
    remote: PeerId,
    reason: DisconnectReason,
    c: Chance,
)
    requires
        s.wf(),
    ensures
        ({
            let after = scheduled(s, node, Output::Disconnect(remote, reason), c);
            &&& !after.connections.contains_key((node, remote.ip))
            &&& !after.connections.contains_key((remote.ip, node))
            &&& symmetric(after.connections)
            &&& forall|a: NodeId, b: NodeId|
                (a, b) != (node, remote.ip) && (a, b) != (remote.ip, node) ==> (
                #[trigger] after.connections.contains_key((a, b)) <==> s.connections.contains_key(
                    (a, b),
                )) && (s.connections.contains_key((a, b)) ==> after.connections[(a, b)]
                    == s.connections[(a, b)])
        }),
{
    let after = scheduled(s, node, Output::Disconnect(remote, reason), c);
    if s.connections.contains_key((node, remote.ip)) {
        assert forall|a: NodeId, b: NodeId| #[trigger]
            after.connections.contains_key((a, b)) implies s.connections.contains_key((a, b))
            && after.connections.contains_key((b, a)) by {
            assert((a, b) != (node, remote.ip) && (a, b) != (remote.ip, node));
            assert((b, a) != (node, remote.ip) && (b, a) != (remote.ip, node));
        }
    } else {
        assert(!s.connections.contains_key((remote.ip, node)));
    }
}

/// No node connects to itself. A connection attempt of a node to an
/// endpoint at its own address is a fault, whatever the state, and no move
/// of a simulation schedules it: it never reaches the inbox.
pub proof fn law_no_self_connection(
    s: State,
    node: NodeId,
    remote: PeerId,
    timeout: LocalDuration,
    c: Chance,
)
    requires
        remote.ip == node,
    ensures
        fault_of(s, node, Output::Connect(remote, timeout)) == Some(Fault::SelfConnection),
        !may(s, Move::Schedule(node, Output::Connect(remote, timeout), c)),
{
}

/// The beginning of a run is a run.
pub proof fn lemma_runs_prefix(s: State, moves: Seq<Move>, i: int)
    requires
        runs(s, moves),
        0 <= i <= moves.len(),
    ensures
        runs(s, moves.take(i)),
    decreases moves.len() - i,
{
    if i < moves.len() {
        assert(moves.drop_last().take(i) =~= moves.take(i));
        lemma_runs_prefix(s, moves.drop_last(), i);
    } else {
        assert(moves.take(i) =~= moves);
    }
}

/// No run of a simulation schedules a connection of a node to itself:
/// whatever the state it starts in and whatever its moves, none of them
/// puts such a connection attempt into the inbox.
pub proof fn law_no_self_connection_in_any_run(s: State, moves: Seq<Move>, k: int)
    requires
        runs(s, moves),
        0 <= k < moves.len(),
    ensures
        moves[k] matches Move::Schedule(node, Output::Connect(remote, _), _) ==> remote.ip != node,
{
    lemma_runs_prefix(s, moves, k + 1);
    assert(moves.take(k + 1).last() == moves[k]);
    assert(moves.take(k + 1).drop_last() =~= moves.take(k));
}

/// The failure rate at its bounds. At a failure rate of zero no message
/// over a standing connection and no connection attempt fails: the message
/// is put into the inbox and the connection stays, the attempt makes the
/// connection. At a failure rate of [`ALWAYS`] each of them fails: the
/// message ends the connection, the attempt makes none.
pub proof fn law_failure_rate(s: State, node: NodeId, out: Output, c: Chance)
    requires
        s.wf(),
        !fatal(node, out),
        admissible(s, node, out, c),
    ensures
        s.opts.failure_rate == 0 ==> match out {
            Output::Message(receiver, msg) => s.connections.contains_key((node, receiver.ip)) ==> {
                let sender_addr = s.connections[(node, receiver.ip)].0;
                scheduled(s, node, out, c) == (State {
                    inbox: put(
                        s.inbox,
                        s.time + c.latency,
                        Scheduled {
                            remote: sender_addr,
                            node: receiver.ip,
                            input: Input::Received(sender_addr, msg),
                        },
                    ),
                    ..s
                })
            },
            Output::Connect(remote, _) => scheduled(s, node, out, c).connections.contains_key(
                (node, remote.ip),
            ) && scheduled(s, node, out, c).connections.contains_key((remote.ip, node)),
            _ => true,
        },
        s.opts.failure_rate >= ALWAYS ==> match out {
            Output::Message(receiver, _) => s.connections.contains_key((node, receiver.ip)) ==> {
                &&& scheduled(s, node, out, c) == disconnected(
                    s,
                    node,
                    receiver,
                    DisconnectReason::ConnectionError("unexpected I/O error"),
                    c.latency,
                )
                &&& !scheduled(s, node, out, c).connections.contains_key((node, receiver.ip))
                &&& !scheduled(s, node, out, c).connections.contains_key((receiver.ip, node))
            },
            Output::Connect(_, _) => scheduled(s, node, out, c).connections == s.connections,
            _ => true,
        },
{
}

/// The bounds of latency. Between two nodes with a base latency above the
/// minimum, one delivery takes at least half of it and at most twice as
/// long; with a base latency at or under the minimum it takes the base
/// latency, and without one the minimum latency.
pub proof fn law_latency_bounds(base: Option<LocalDuration>, latency: LocalDuration)
    requires
        latency_within(base, latency),
    ensures
        match base {
            Some(l) => if l > MIN_LATENCY {
                l <= 2 * latency && latency <= 2 * l
            } else {
                latency == l
            },
            None => latency == MIN_LATENCY,
        },
{
}

} // verus!
