use nakamoto_p2p::inbox::Scheduled;
use nakamoto_p2p::net::{NodeId, SocketAddr};
use nakamoto_p2p::protocol::{DisconnectReason, Input, Link, Output, Peer, Protocol};
use nakamoto_p2p::simulator::{
    find, is_failure, vary, Chance, Fault, Options, Simulation, ALWAYS, EPHEMERAL_PORT,
};
use nakamoto_p2p::time::MIN_LATENCY;

const A: NodeId = 0xffff_0a00_0001;
const B: NodeId = 0xffff_0a00_0002;
const C: NodeId = 0x2001_0db8_0000_0000_0000_0000_0000_0003;

fn addr(node: NodeId) -> SocketAddr {
    SocketAddr::new(node, 8333)
}

fn sim(seed: u64, opts: Options) -> Simulation {
    Simulation::new(1000, fastrand::Rng::with_seed(seed), opts)
}

fn plain(port: u16, latency: u128) -> Chance {
    Chance { fails: false, notify: false, port, latency }
}

/// Deliver inputs until none is left, and hand them back with their times.
fn drain(sim: &mut Simulation) -> Vec<(u128, Scheduled)> {
    let mut all = Vec::new();
    while let Some(next) = sim.advance() {
        all.push(next);
    }
    all
}

#[test]
fn a_new_simulation_is_done_and_settled() {
    let s = sim(1, Options::default());
    assert!(s.is_done());
    assert!(s.is_settled());
    assert_eq!(s.time(), 1000);
    assert_eq!(s.elapsed(), 0);
    assert_eq!(s.pending(), 0);
    assert!(s.is_unconnected());
}

#[test]
fn default_options_ask_for_no_latency_and_no_failure() {
    let opts = Options::default();
    assert!(opts.latency.is_empty());
    assert_eq!(opts.failure_rate, 0);
}

#[test]
fn failure_is_decided_by_the_upper_bits_of_the_draw() {
    assert!(!is_failure(0, 0));
    assert!(!is_failure(0, u64::MAX));
    assert!(is_failure(ALWAYS, 0));
    assert!(is_failure(ALWAYS, u64::MAX));
    assert!(is_failure(1, 0));
    assert!(is_failure(1, 4095));
    assert!(!is_failure(1, 4096));
    assert!(is_failure(ALWAYS / 2, (1 << 63) - 1));
    assert!(!is_failure(ALWAYS / 2, 1 << 63));
}

#[test]
fn vary_adds_or_takes_off_the_amount() {
    assert_eq!(vary(100, true, 0), 100);
    assert_eq!(vary(100, true, 99), 199);
    assert_eq!(vary(100, false, 0), 100);
    assert_eq!(vary(100, false, 49), 51);
    assert_eq!(vary(2, false, 0), 2);
    assert_eq!(vary(3, true, 2), 5);
}

#[test]
fn latency_without_a_base_latency_is_the_minimum() {
    let s = sim(7, Options::default());
    for _ in 0..20 {
        assert_eq!(s.latency(A, B), MIN_LATENCY);
    }
    assert_eq!(s.base_latency(A, B), None);
}

#[test]
fn assigned_latencies_are_mutual_and_in_range() {
    let mut s = sim(11, Options { latency: 5000..6000, failure_rate: 0 });
    s.assign_latencies(&vec![A, B, C]);
    for (from, to) in [(A, B), (A, C), (B, C)] {
        let base = s.base_latency(from, to).unwrap();
        assert!(5000 <= base && base < 6000);
        assert_eq!(s.base_latency(to, from), Some(base));
    }
    assert_eq!(s.base_latency(A, A), None);
}

#[test]
fn a_range_of_one_latency_gives_that_latency() {
    let mut s = sim(15, Options { latency: 250..251, failure_rate: 0 });
    s.assign_latencies(&vec![A, B]);
    assert_eq!(s.base_latency(A, B), Some(250));
    assert_eq!(s.base_latency(B, A), Some(250));
}

#[test]
fn a_base_latency_once_assigned_stays() {
    let mut s = sim(12, Options { latency: 1000..50_000, failure_rate: 0 });
    s.assign_latencies(&vec![A, B]);
    let base = s.base_latency(A, B).unwrap();
    s.assign_latencies(&vec![A, B, C]);
    s.assign_latencies(&vec![B, A]);
    assert_eq!(s.base_latency(A, B), Some(base));
    assert_eq!(s.base_latency(B, A), Some(base));
    assert!(s.base_latency(B, C).is_some());
}

#[test]
fn latency_lies_between_half_and_twice_the_base_latency() {
    let mut s = sim(13, Options { latency: 2000..3000, failure_rate: 0 });
    s.assign_latencies(&vec![A, B]);
    let base = s.base_latency(A, B).unwrap();
    let mut more = false;
    let mut less = false;
    for _ in 0..200 {
        let l = s.latency(A, B);
        assert!(2 * l >= base && l <= 2 * base);
        assert!(base - base / 2 < l && l < 2 * base);
        more |= l > base;
        less |= l < base;
    }
    assert!(more && less);
}

#[test]
fn a_base_latency_at_the_minimum_is_taken_as_it_is() {
    let mut s = sim(14, Options { latency: 0..4, failure_rate: 0 });
    let mut found = false;
    for node in 0..200u128 {
        s.assign_latencies(&vec![A, 0x0b00_0000 + node]);
        let base = s.base_latency(A, 0x0b00_0000 + node).unwrap();
        assert!(base < 4);
        if base <= MIN_LATENCY {
            found = true;
            for _ in 0..10 {
                assert_eq!(s.latency(A, 0x0b00_0000 + node), base);
            }
        }
    }
    assert!(found);
}

#[test]
fn connect_registers_both_sides_and_schedules_three_inputs() {
    let mut s = sim(2, Options::default());
    s.apply(A, Output::Connect(addr(B), 5000), plain(9000, 20));
    let local = SocketAddr::new(A, 9000);
    assert_eq!(s.connection(A, B), Some((local, addr(B))));
    assert_eq!(s.connection(B, A), Some((addr(B), local)));
    assert_eq!(s.connection(A, C), None);
    assert_eq!(s.pending(), 3);
    assert!(!s.is_settled());
    let all = drain(&mut s);
    assert_eq!(
        all,
        vec![
            (
                1001,
                Scheduled { node: A, remote: addr(B), input: Input::Connecting { addr: addr(B) } }
            ),
            (
                1020,
                Scheduled {
                    node: B,
                    remote: local,
                    input: Input::Connected {
                        addr: local,
                        local_addr: addr(B),
                        link: Link::Inbound
                    }
                }
            ),
            (
                1021,
                Scheduled {
                    node: A,
                    remote: addr(B),
                    input: Input::Connected {
                        addr: addr(B),
                        local_addr: local,
                        link: Link::Outbound
                    }
                }
            ),
        ]
    );
    assert_eq!(s.time(), 1021);
    assert_eq!(s.elapsed(), 21);
    assert!(s.is_done());
}

#[test]
fn a_failed_connect_registers_nothing() {
    let mut s = sim(2, Options::default());
    let told = Chance { fails: true, notify: true, port: 9000, latency: 20 };
    s.apply(A, Output::Connect(addr(B), 5000), told);
    assert!(s.is_unconnected());
    let failed = DisconnectReason::ConnectionError("failed to connect");
    assert_eq!(
        drain(&mut s),
        vec![
            (
                1001,
                Scheduled { node: A, remote: addr(B), input: Input::Connecting { addr: addr(B) } }
            ),
            (
                1002,
                Scheduled {
                    node: A,
                    remote: addr(B),
                    input: Input::Disconnected(addr(B), failed)
                }
            ),
        ]
    );
}

#[test]
fn a_failed_connect_may_hang() {
    let mut s = sim(2, Options::default());
    let hangs = Chance { fails: true, notify: false, port: 9000, latency: 20 };
    s.apply(A, Output::Connect(addr(B), 5000), hangs);
    assert!(s.is_unconnected());
    assert_eq!(
        drain(&mut s),
        vec![(
            1001,
            Scheduled { node: A, remote: addr(B), input: Input::Connecting { addr: addr(B) } }
        )]
    );
}

#[test]
fn a_message_without_a_connection_is_dropped() {
    let mut s = sim(3, Options::default());
    s.apply(A, Output::Message(addr(B), vec![1, 2, 3]), plain(0, 5));
    assert!(s.is_done());
    s.schedule(&A, Output::Message(addr(B), vec![1, 2, 3]));
    assert!(s.is_done());
}

#[test]
fn a_message_arrives_from_the_senders_endpoint() {
    let mut s = sim(3, Options::default());
    s.apply(A, Output::Connect(addr(B), 5000), plain(9000, 1));
    drain(&mut s);
    let now = s.time();
    s.apply(A, Output::Message(addr(B), vec![1, 2, 3]), plain(0, 7));
    s.apply(B, Output::Message(SocketAddr::new(A, 9000), vec![4]), plain(0, 7));
    let local = SocketAddr::new(A, 9000);
    assert_eq!(
        drain(&mut s),
        vec![
            (
                now + 7,
                Scheduled { node: B, remote: local, input: Input::Received(local, vec![1, 2, 3]) }
            ),
            (
                now + 8,
                Scheduled { node: A, remote: addr(B), input: Input::Received(addr(B), vec![4]) }
            ),
        ]
    );
    assert_eq!(s.connection(A, B), Some((local, addr(B))));
}

#[test]
fn a_failed_message_ends_the_connection() {
    let mut s = sim(3, Options::default());
    s.apply(A, Output::Connect(addr(B), 5000), plain(9000, 1));
    drain(&mut s);
    let now = s.time();
    let fails = Chance { fails: true, notify: false, port: 0, latency: 9 };
    s.apply(A, Output::Message(addr(B), vec![1]), fails);
    assert!(s.is_unconnected());
    let local = SocketAddr::new(A, 9000);
    assert_eq!(
        drain(&mut s),
        vec![
            (
                now,
                Scheduled {
                    node: A,
                    remote: addr(B),
                    input: Input::Disconnected(
                        addr(B),
                        DisconnectReason::ConnectionError("unexpected I/O error")
                    )
                }
            ),
            (
                now + 9,
                Scheduled {
                    node: B,
                    remote: local,
                    input: Input::Disconnected(
                        local,
                        DisconnectReason::ConnectionError("remote end closed the connection")
                    )
                }
            ),
        ]
    );
}

#[test]
fn disconnect_removes_both_sides_and_tells_each_its_own_reason() {
    let mut s = sim(4, Options::default());
    s.apply(A, Output::Connect(addr(B), 5000), plain(9000, 1));
    s.apply(C, Output::Connect(addr(B), 5000), plain(9001, 1));
    drain(&mut s);
    let now = s.time();
    let local = SocketAddr::new(A, 9000);
    s.apply(B, Output::Disconnect(local, DisconnectReason::Command), plain(0, 30));
    assert_eq!(s.connection(A, B), None);
    assert_eq!(s.connection(B, A), None);
    assert!(s.connection(C, B).is_some());
    assert!(s.connection(B, C).is_some());
    assert_eq!(
        drain(&mut s),
        vec![
            (
                now,
                Scheduled {
                    node: B,
                    remote: local,
                    input: Input::Disconnected(local, DisconnectReason::Command)
                }
            ),
            (
                now + 30,
                Scheduled {
                    node: A,
                    remote: addr(B),
                    input: Input::Disconnected(
                        addr(B),
                        DisconnectReason::ConnectionError("remote end closed the connection")
                    )
                }
            ),
        ]
    );
}

#[test]
fn a_second_disconnect_does_nothing() {
    let mut s = sim(4, Options::default());
    s.apply(A, Output::Connect(addr(B), 5000), plain(9000, 1));
    drain(&mut s);
    s.apply(A, Output::Disconnect(addr(B), DisconnectReason::Command), plain(0, 3));
    assert_eq!(s.pending(), 2);
    s.apply(B, Output::Disconnect(SocketAddr::new(A, 9000), DisconnectReason::Command), plain(0, 3));
    s.schedule(&A, Output::Disconnect(addr(B), DisconnectReason::Command));
    assert_eq!(s.pending(), 2);
    assert!(s.is_unconnected());
}

#[test]
fn a_timeout_schedules_a_tick_at_the_node() {
    let mut s = sim(5, Options::default());
    s.schedule(&A, Output::SetTimeout(250));
    assert!(s.is_settled());
    assert!(!s.is_done());
    assert_eq!(
        drain(&mut s),
        vec![(1250, Scheduled { node: A, remote: SocketAddr::unspecified(), input: Input::Tick })]
    );
}

#[test]
fn an_event_schedules_nothing() {
    let mut s = sim(5, Options::default());
    s.schedule(&A, Output::Event(vec![1]));
    assert!(s.is_done());
    assert_eq!(s.try_schedule(&A, Output::Event(vec![])), Ok(()));
    assert!(s.is_done());
}

#[test]
fn a_connection_of_a_node_to_itself_is_refused_before_the_inbox() {
    let mut s = sim(6, Options::default());
    s.schedule(&A, Output::SetTimeout(10));
    assert_eq!(s.try_schedule(&A, Output::Connect(addr(A), 1000)), Err(Fault::SelfConnection));
    assert_eq!(
        s.try_schedule(&A, Output::Connect(SocketAddr::new(A, 1), 1000)),
        Err(Fault::SelfConnection)
    );
    assert_eq!(s.pending(), 1);
    assert!(s.is_unconnected());
    assert_eq!(s.schedule_all(&A, vec![Output::Connect(addr(A), 1)]), Err(Fault::SelfConnection));
    assert_eq!(s.pending(), 1);
}

#[test]
fn a_shutdown_is_a_fault() {
    let mut s = sim(6, Options::default());
    assert_eq!(s.try_schedule(&A, Output::Shutdown), Err(Fault::Shutdown));
    assert!(s.is_done());
}

#[test]
fn a_timeout_past_the_end_of_the_clock_is_a_fault() {
    let mut s = sim(6, Options::default());
    assert_eq!(s.try_schedule(&A, Output::SetTimeout(u128::MAX)), Err(Fault::ClockOverflow));
    assert_eq!(s.try_schedule(&A, Output::SetTimeout(u128::MAX - 1001)), Err(Fault::ClockOverflow));
    assert!(s.is_done());
    assert_eq!(s.try_schedule(&A, Output::SetTimeout(u128::MAX - 1002)), Ok(()));
    assert_eq!(s.pending(), 1);
}

#[test]
fn schedule_all_stops_at_the_first_fault() {
    let mut s = sim(6, Options::default());
    let outs = vec![
        Output::SetTimeout(1),
        Output::SetTimeout(2),
        Output::Shutdown,
        Output::SetTimeout(3),
    ];
    assert_eq!(s.schedule_all(&A, outs), Err(Fault::Shutdown));
    assert_eq!(s.pending(), 2);
}

#[test]
fn at_a_failure_rate_of_zero_nothing_fails() {
    for seed in 0..50 {
        let mut s = sim(seed, Options::default());
        s.schedule(&A, Output::Connect(addr(B), 1000));
        let (local, remote) = s.connection(A, B).unwrap();
        assert_eq!(remote, addr(B));
        assert_eq!(local.ip(), A);
        assert!(local.port() >= EPHEMERAL_PORT);
        assert_eq!(s.connection(B, A), Some((remote, local)));
        assert_eq!(s.pending(), 3);
        drain(&mut s);
        s.schedule(&A, Output::Message(addr(B), vec![9]));
        assert!(s.connection(A, B).is_some());
        let now = s.time();
        assert_eq!(
            drain(&mut s),
            vec![(
                now + MIN_LATENCY,
                Scheduled { node: B, remote: local, input: Input::Received(local, vec![9]) }
            )]
        );
    }
}

#[test]
fn at_a_failure_rate_of_one_everything_fails() {
    let mut told = 0;
    let mut hung = 0;
    for seed in 0..50 {
        let mut s = sim(seed, Options { latency: 0..0, failure_rate: ALWAYS });
        s.schedule(&A, Output::Connect(addr(B), 1000));
        assert!(s.is_unconnected());
        match s.pending() {
            1 => hung += 1,
            2 => told += 1,
            n => panic!("{} inputs", n),
        }
        drain(&mut s);
        s.apply(A, Output::Connect(addr(B), 1000), plain(9000, 1));
        drain(&mut s);
        s.schedule(&A, Output::Message(addr(B), vec![9]));
        assert!(s.is_unconnected());
        let all = drain(&mut s);
        assert_eq!(all.len(), 2);
        assert_eq!(
            all[0].1.input,
            Input::Disconnected(addr(B), DisconnectReason::ConnectionError("unexpected I/O error"))
        );
    }
    assert!(told > 0 && hung > 0);
}

#[test]
fn at_a_failure_rate_between_some_attempts_fail() {
    let mut failed = 0;
    let mut made = 0;
    for seed in 0..200 {
        let mut s = sim(seed, Options { latency: 0..0, failure_rate: ALWAYS / 2 });
        s.schedule(&A, Output::Connect(addr(B), 1000));
        if s.is_unconnected() {
            failed += 1;
        } else {
            made += 1;
        }
    }
    assert!(failed > 50 && made > 50);
}

#[test]
fn ephemeral_ports_are_drawn_at_random() {
    let mut ports = Vec::new();
    for seed in 0..20 {
        let mut s = sim(seed, Options::default());
        s.schedule(&A, Output::Connect(addr(B), 1000));
        let port = s.connection(A, B).unwrap().0.port();
        assert!(port >= EPHEMERAL_PORT);
        ports.push(port);
    }
    assert!(ports.iter().any(|p| *p != EPHEMERAL_PORT));
    assert!(ports.iter().any(|p| *p != ports[0]));
}

#[test]
fn time_only_moves_forwards() {
    let mut s = sim(21, Options { latency: 1000..3000, failure_rate: ALWAYS / 4 });
    s.assign_latencies(&vec![A, B, C]);
    let mut last = s.time();
    let mut delivered = 0;
    for round in 0..200u32 {
        let (from, to) = match round % 3 {
            0 => (A, B),
            1 => (B, C),
            _ => (C, A),
        };
        s.schedule(&from, Output::Connect(addr(to), 1000));
        s.schedule(&from, Output::Message(addr(to), vec![round as u8]));
        s.schedule(&to, Output::SetTimeout(round as u128));
        if round % 5 == 0 {
            s.schedule(&to, Output::Disconnect(addr(from), DisconnectReason::Command));
        }
        for _ in 0..3 {
            if let Some((time, _)) = s.advance() {
                assert!(time >= last);
                assert_eq!(s.time(), time);
                last = time;
                delivered += 1;
            }
        }
    }
    for (time, _) in drain(&mut s) {
        assert!(time >= last);
        last = time;
        delivered += 1;
    }
    assert!(delivered > 400);
    assert_eq!(s.elapsed(), last - 1000);
}

#[test]
fn the_same_seed_gives_the_same_run() {
    let run = |seed: u64| {
        let mut s = sim(seed, Options { latency: 1000..4000, failure_rate: ALWAYS / 3 });
        s.assign_latencies(&vec![A, B, C]);
        for round in 0..30u8 {
            s.schedule(&A, Output::Connect(addr(B), 1000));
            s.schedule(&B, Output::Connect(addr(C), 1000));
            s.schedule(&A, Output::Message(addr(B), vec![round]));
        }
        drain(&mut s)
    };
    assert_eq!(run(99), run(99));
    assert_ne!(run(99), run(100));
}

#[test]
fn draw_leaves_to_chance_only_what_the_output_needs() {
    let fixed = Chance { fails: false, notify: false, port: 0, latency: MIN_LATENCY };
    let mut s = sim(41, Options { latency: 10_000..20_000, failure_rate: ALWAYS });
    s.assign_latencies(&vec![A, B]);
    assert_eq!(s.draw(A, &Output::SetTimeout(5)), fixed);
    assert_eq!(s.draw(A, &Output::Event(vec![])), fixed);
    assert_eq!(s.draw(A, &Output::Message(addr(B), vec![])), fixed);
    assert_eq!(s.draw(A, &Output::Disconnect(addr(B), DisconnectReason::Command)), fixed);
    let base = s.base_latency(A, B).unwrap();
    let c = s.draw(A, &Output::Connect(addr(B), 1));
    assert!(c.fails);
    assert!(c.port >= EPHEMERAL_PORT);
    assert!(base - base / 2 < c.latency && c.latency < 2 * base);
    s.apply(A, Output::Connect(addr(B), 1), plain(9000, 1));
    let c = s.draw(A, &Output::Message(addr(B), vec![]));
    assert!(c.fails);
    assert!(base - base / 2 < c.latency && c.latency < 2 * base);
    let c = s.draw(B, &Output::Disconnect(SocketAddr::new(A, 9000), DisconnectReason::Command));
    assert!(base - base / 2 < c.latency && c.latency < 2 * base);
}

#[test]
fn find_gives_the_place_of_the_peer() {
    let peers = vec![
        Peer { addr: addr(A), protocol: () },
        Peer { addr: addr(B), protocol: () },
        Peer { addr: addr(C), protocol: () },
    ];
    assert_eq!(find(&peers, A), Some(0));
    assert_eq!(find(&peers, C), Some(2));
    assert_eq!(find(&peers, 1), None);
}

/// A machine that connects to the peers it is given, greets whoever it is
/// connected with, and closes a connection when it has been greeted.
struct Greeter {
    targets: Vec<SocketAddr>,
    queue: Vec<Output>,
    connects: usize,
    connected: usize,
    disconnects: usize,
    disconnected: usize,
    times: Vec<u128>,
}

impl Greeter {
    fn new(targets: Vec<SocketAddr>) -> Self {
        Greeter {
            targets,
            queue: Vec::new(),
            connects: 0,
            connected: 0,
            disconnects: 0,
            disconnected: 0,
            times: Vec::new(),
        }
    }
}

impl Protocol for Greeter {
    fn initialize(&mut self, _time: u128) {
        for target in &self.targets {
            self.queue.push(Output::Connect(*target, 1000));
            self.connects += 1;
        }
        self.queue.push(Output::Event(vec![0]));
    }

    fn step(&mut self, input: Input, time: u128) {
        self.times.push(time);
        match input {
            Input::Connected { addr, link: Link::Outbound, .. } => {
                self.connected += 1;
                self.queue.push(Output::Message(addr, vec![1]));
            }
            Input::Connected { .. } => {
                self.connected += 1;
            }
            Input::Received(from, _) => {
                self.queue.push(Output::Disconnect(from, DisconnectReason::Command));
                self.disconnects += 1;
            }
            Input::Disconnected(..) => {
                self.disconnected += 1;
            }
            _ => {}
        }
    }

    fn drain(&mut self) -> Vec<Output> {
        std::mem::take(&mut self.queue)
    }
}

#[test]
fn three_nodes_connect_greet_and_part() {
    let mut s = sim(31, Options::default());
    let mut peers = vec![
        Peer { addr: addr(A), protocol: Greeter::new(vec![addr(B), addr(C)]) },
        Peer { addr: addr(B), protocol: Greeter::new(vec![addr(C)]) },
        Peer { addr: addr(C), protocol: Greeter::new(vec![]) },
    ];
    s.initialize(&mut peers);
    let mut connected_at_some_time = false;
    let mut steps = 0;
    loop {
        let more = s.step(&mut peers).unwrap();
        steps += 1;
        let links: usize = peers.iter().map(|p| p.protocol.connects).sum();
        let parted: usize = peers.iter().map(|p| p.protocol.disconnects).sum();
        if !s.is_unconnected() {
            connected_at_some_time = true;
        } else if connected_at_some_time {
            assert_eq!(parted, links);
        }
        if !more {
            break;
        }
        assert!(steps < 1000);
    }
    assert!(s.is_done());
    assert!(s.is_settled());
    assert!(connected_at_some_time);
    assert!(s.is_unconnected());
    let connects: usize = peers.iter().map(|p| p.protocol.connects).sum();
    let connected: usize = peers.iter().map(|p| p.protocol.connected).sum();
    let disconnected: usize = peers.iter().map(|p| p.protocol.disconnected).sum();
    assert_eq!(connects, 3);
    assert_eq!(connected, 2 * connects);
    assert_eq!(disconnected, 2 * connects);
    for peer in &peers {
        assert!(peer.protocol.times.windows(2).all(|w| w[0] <= w[1]));
    }
    assert_eq!(s.base_latency(A, B), None);
}

/// A machine that keeps the times at which it was initialized.
struct Recorder {
    initialized: Vec<u128>,
}

impl Protocol for Recorder {
    fn initialize(&mut self, time: u128) {
        self.initialized.push(time);
    }

    fn step(&mut self, _input: Input, _time: u128) {}

    fn drain(&mut self) -> Vec<Output> {
        Vec::new()
    }
}

#[test]
fn initialize_initializes_each_machine_once_at_the_time_of_the_simulation() {
    let mut s = sim(36, Options::default());
    s.schedule(&A, Output::SetTimeout(40));
    s.advance();
    assert_eq!(s.time(), 1040);
    let mut peers = vec![
        Peer { addr: addr(A), protocol: Recorder { initialized: vec![] } },
        Peer { addr: addr(B), protocol: Recorder { initialized: vec![] } },
        Peer { addr: addr(C), protocol: Recorder { initialized: vec![7] } },
    ];
    s.initialize(&mut peers);
    assert_eq!(peers.len(), 3);
    assert_eq!(peers[0].addr, addr(A));
    assert_eq!(peers[1].addr, addr(B));
    assert_eq!(peers[2].addr, addr(C));
    assert_eq!(peers[0].protocol.initialized, vec![1040]);
    assert_eq!(peers[1].protocol.initialized, vec![1040]);
    assert_eq!(peers[2].protocol.initialized, vec![7, 1040]);
    let mut none: Vec<Peer<Recorder>> = Vec::new();
    s.initialize(&mut none);
    assert!(none.is_empty());
}

#[test]
fn step_assigns_latencies_when_the_options_ask_for_them() {
    let mut s = sim(32, Options { latency: 1000..2000, failure_rate: 0 });
    let mut peers = vec![
        Peer { addr: addr(A), protocol: Greeter::new(vec![addr(B)]) },
        Peer { addr: addr(B), protocol: Greeter::new(vec![]) },
    ];
    s.initialize(&mut peers);
    assert_eq!(s.step(&mut peers), Ok(true));
    let base = s.base_latency(A, B).unwrap();
    assert!(1000 <= base && base < 2000);
    assert_eq!(s.base_latency(B, A), Some(base));
    while s.step(&mut peers).unwrap() {}
    assert_eq!(s.base_latency(A, B), Some(base));
    assert_eq!(peers[0].protocol.connected + peers[1].protocol.connected, 2);
}

#[test]
fn step_on_an_empty_simulation_does_nothing() {
    let mut s = sim(33, Options::default());
    let mut peers = vec![Peer { addr: addr(A), protocol: Greeter::new(vec![]) }];
    assert_eq!(s.step(&mut peers), Ok(false));
    assert_eq!(s.time(), 1000);
}

#[test]
fn step_refuses_a_node_that_connects_to_itself() {
    let mut s = sim(34, Options::default());
    let mut peers = vec![Peer { addr: addr(A), protocol: Greeter::new(vec![addr(A)]) }];
    s.initialize(&mut peers);
    assert_eq!(s.step(&mut peers), Err(Fault::SelfConnection));
    assert!(s.is_done());
}

#[test]
fn step_reports_an_input_for_a_node_that_is_not_there() {
    let mut s = sim(35, Options::default());
    s.apply(A, Output::Disconnect(addr(B), DisconnectReason::Command), plain(0, 1));
    s.apply(C, Output::SetTimeout(0), plain(0, 1));
    let mut peers = vec![Peer { addr: addr(A), protocol: Greeter::new(vec![]) }];
    assert_eq!(s.step(&mut peers), Err(Fault::UnknownNode(C)));
}
