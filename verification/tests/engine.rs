use detsim::{
    Configuration, DeterministicClient, DeterministicNode, Duration, ExponentialSampler,
    FailureConfiguration, Instant, InvariantChecker, NetworkConfig, Node, NodeId, Probability,
    ProtocolMessage, Simulator,
};
use rand_chacha::ChaCha8Rng;
use rand_distr::{Distribution, Exp};
use std::cell::RefCell;
use std::rc::Rc;

/// Exponential spans drawn with `rand_distr`, as seconds in floating point.
struct ExpSampler;

impl ExponentialSampler for ExpSampler {
    fn sample(&mut self, mean: Duration, rng: &mut ChaCha8Rng) -> Duration {
        let mean = std::time::Duration::from_nanos(mean.as_nanos());
        let mult: f64 = Exp::new(1.0 / mean.as_secs_f64()).unwrap().sample(rng);
        Duration::from_nanos(std::time::Duration::from_secs_f64(mult).as_nanos() as u64)
    }
}

/// Always the same span; notes the means that it was asked for.
struct Noting {
    span: Duration,
    asked: Rc<RefCell<Vec<Duration>>>,
}

impl ExponentialSampler for Noting {
    fn sample(&mut self, mean: Duration, _rng: &mut ChaCha8Rng) -> Duration {
        self.asked.borrow_mut().push(mean);
        self.span
    }
}

/// Always the same span.
struct Fixed(Duration);

impl ExponentialSampler for Fixed {
    fn sample(&mut self, _mean: Duration, _rng: &mut ChaCha8Rng) -> Duration {
        self.0
    }
}

fn ms(millis: u64) -> Duration {
    Duration::from_millis(millis)
}

fn at(millis: u64) -> Instant {
    Instant::from_nanos(millis * 1_000_000)
}

#[derive(Debug, Clone, PartialEq, Eq)]
struct Note {
    from: NodeId,
    to: NodeId,
    body: u64,
}

impl ProtocolMessage for Note {
    fn source(&self) -> NodeId {
        self.from
    }

    fn destination(&self) -> NodeId {
        self.to
    }
}

/// What the servers and clients saw, in order.
#[derive(Debug, Clone, PartialEq, Eq)]
enum Seen {
    Tick(NodeId, Instant),
    Message(NodeId, Note, Instant),
    Recover(NodeId, Instant, usize),
}

type Log = Rc<RefCell<Vec<Seen>>>;

/// A server that answers every note with its body plus one.
#[derive(Debug)]
struct Peer {
    id: NodeId,
    recovering: bool,
    log: Log,
}

impl DeterministicNode for Peer {
    type Message = Note;

    fn id(&self) -> NodeId {
        self.id
    }

    fn tick(&mut self, now: Instant) -> Vec<Note> {
        self.log.borrow_mut().push(Seen::Tick(self.id, now));
        vec![]
    }

    fn process_message(&mut self, msg: Note, now: Instant) -> Vec<Note> {
        self.log.borrow_mut().push(Seen::Message(self.id, msg.clone(), now));
        vec![Note { from: self.id, to: msg.from, body: msg.body + 1 }]
    }

    fn recover(&mut self, now: Instant, _nonce: u64, replica_count: usize) {
        self.log.borrow_mut().push(Seen::Recover(self.id, now, replica_count));
    }

    fn is_recovering(&self) -> bool {
        self.recovering
    }
}

/// A client that sends a note to each of its targets at every tick and is
/// finished once it has got `wanted` answers.
#[derive(Debug)]
struct Driver {
    id: NodeId,
    targets: Vec<NodeId>,
    wanted: usize,
    answers: usize,
    log: Log,
}

impl DeterministicClient for Driver {
    type Message = Note;

    fn id(&self) -> NodeId {
        self.id
    }

    fn tick(&mut self, now: Instant) -> Vec<Note> {
        self.log.borrow_mut().push(Seen::Tick(self.id, now));
        self.targets.iter().map(|to| Note { from: self.id, to: *to, body: 10 }).collect()
    }

    fn process_message(&mut self, msg: Note, now: Instant) -> Vec<Note> {
        self.log.borrow_mut().push(Seen::Message(self.id, msg, now));
        self.answers += 1;
        vec![]
    }

    fn finished(&self) -> bool {
        self.answers >= self.wanted
    }
}

/// Counts the checks and notes the greatest number of servers down at once.
struct Watch {
    checks: Rc<RefCell<usize>>,
    most_down: Rc<RefCell<usize>>,
    cap: usize,
}

impl InvariantChecker<Peer, Driver> for Watch {
    fn check_invariants(&self, seed: u64, nodes: &[Node<Peer>], _clients: &[Driver]) {
        *self.checks.borrow_mut() += 1;
        let down = nodes.iter().filter(|node| node.state().is_failed()).count();
        assert!(down <= self.cap, "{down} servers are down (seed: {seed})");
        let mut most = self.most_down.borrow_mut();
        *most = (*most).max(down);
    }
}

struct World {
    finished: bool,
    elapsed: Duration,
    log: Vec<Seen>,
    checks: usize,
    most_down: usize,
}

fn simulate<S: ExponentialSampler>(
    servers: usize,
    targets: Vec<NodeId>,
    wanted: usize,
    config: Configuration,
    start_time: Instant,
    sampler: S,
) -> World {
    let log: Log = Rc::new(RefCell::new(Vec::new()));
    let checks = Rc::new(RefCell::new(0));
    let most_down = Rc::new(RefCell::new(0));
    let peers = (0..servers).map(|i| Peer { id: NodeId::Node(i), recovering: false, log: log.clone() }).collect();
    let driver =
        Driver { id: NodeId::Client(0), targets, wanted, answers: 0, log: log.clone() };
    let watch = Watch { checks: checks.clone(), most_down: most_down.clone(), cap: servers / 2 };
    let mut simulator = Simulator::new(start_time, peers, vec![driver], config, watch, sampler)
        .expect("the simulation is set up");
    let finished = simulator.run();
    let world = World {
        finished,
        elapsed: simulator.elapsed(),
        log: log.borrow().clone(),
        checks: *checks.borrow(),
        most_down: *most_down.borrow(),
    };
    world
}

/// No duplicates, no link failures, no partitions, no crashes.
fn calm() -> Configuration {
    Configuration {
        tick_interval: ms(50),
        max_sim_time: ms(1000),
        seed: 1,
        check_invariants_frequency: 1,
        network_config: NetworkConfig {
            duplicate_probability: Probability::never(),
            mean_time_between_link_failures: None,
            mean_time_between_partitions: None,
            ..NetworkConfig::default()
        },
        failure_config: FailureConfiguration {
            mean_time_between_failures: None,
            ..FailureConfiguration::default()
        },
    }
}

fn ticks_of(log: &[Seen], who: NodeId) -> Vec<Instant> {
    log.iter()
        .filter_map(|seen| match seen {
            Seen::Tick(id, now) if *id == who => Some(*now),
            _ => None,
        })
        .collect()
}

#[test]
fn ticks_fire_at_every_interval_from_the_start() {
    let world = simulate(2, vec![], 1, calm(), at(0), Fixed(ms(20)));
    assert!(!world.finished);
    // the tick at 1050 ms lies beyond the budget and is not handled
    assert_eq!(world.elapsed, ms(1050));
    let expected: Vec<Instant> = (0..=20).map(|k| at(k * 50)).collect();
    assert_eq!(ticks_of(&world.log, NodeId::Node(0)), expected);
    assert_eq!(ticks_of(&world.log, NodeId::Node(1)), expected);
    assert_eq!(ticks_of(&world.log, NodeId::Client(0)), expected);
}

#[test]
fn ticks_are_counted_from_the_start_time() {
    let config = Configuration { tick_interval: ms(300), ..calm() };
    let world = simulate(1, vec![], 1, config, at(7000), Fixed(ms(20)));
    assert!(!world.finished);
    assert_eq!(world.elapsed, ms(1200));
    assert_eq!(
        ticks_of(&world.log, NodeId::Node(0)),
        vec![at(7000), at(7300), at(7600), at(7900)]
    );
}

#[test]
fn tick_reaches_servers_before_clients() {
    let world = simulate(2, vec![], 1, calm(), at(0), Fixed(ms(20)));
    assert_eq!(
        world.log[..6],
        [
            Seen::Tick(NodeId::Node(0), at(0)),
            Seen::Tick(NodeId::Node(1), at(0)),
            Seen::Tick(NodeId::Client(0), at(0)),
            Seen::Tick(NodeId::Node(0), at(50)),
            Seen::Tick(NodeId::Node(1), at(50)),
            Seen::Tick(NodeId::Client(0), at(50)),
        ]
    );
}

#[test]
fn messages_arrive_after_their_delay() {
    // every latency sample is 20 ms
    let world = simulate(1, vec![NodeId::Node(0)], 2, calm(), at(0), Fixed(ms(20)));
    assert!(world.finished);
    let server = NodeId::Node(0);
    let client = NodeId::Client(0);
    let ask = Note { from: client, to: server, body: 10 };
    let answer = Note { from: server, to: client, body: 11 };
    assert_eq!(
        world.log,
        vec![
            Seen::Tick(server, at(0)),
            Seen::Tick(client, at(0)),
            Seen::Message(server, ask.clone(), at(20)),
            Seen::Message(client, answer.clone(), at(40)),
            Seen::Tick(server, at(50)),
            Seen::Tick(client, at(50)),
            Seen::Message(server, ask, at(70)),
            Seen::Message(client, answer, at(90)),
        ]
    );
    // the run ends at the first event that finds the client finished
    assert_eq!(world.elapsed, ms(100));
}

#[test]
fn events_of_one_instant_are_handled_in_the_order_of_scheduling() {
    // no latency at all: every message is due at the instant of its sending
    let config = Configuration {
        network_config: NetworkConfig {
            max_message_latency: ms(0),
            ..calm().network_config
        },
        ..calm()
    };
    let targets = vec![NodeId::Node(1), NodeId::Node(0)];
    let world = simulate(2, targets, 2, config, at(0), Fixed(ms(0)));
    assert!(world.finished);
    // the next tick is the first event that finds the client finished
    assert_eq!(world.elapsed, ms(50));
    let client = NodeId::Client(0);
    assert_eq!(
        world.log,
        vec![
            Seen::Tick(NodeId::Node(0), at(0)),
            Seen::Tick(NodeId::Node(1), at(0)),
            Seen::Tick(client, at(0)),
            Seen::Message(NodeId::Node(1), Note { from: client, to: NodeId::Node(1), body: 10 }, at(0)),
            Seen::Message(NodeId::Node(0), Note { from: client, to: NodeId::Node(0), body: 10 }, at(0)),
            Seen::Message(client, Note { from: NodeId::Node(1), to: client, body: 11 }, at(0)),
            Seen::Message(client, Note { from: NodeId::Node(0), to: client, body: 11 }, at(0)),
        ]
    );
}

#[test]
fn duplicates_are_delivered_too() {
    let config = Configuration {
        network_config: NetworkConfig {
            duplicate_probability: Probability::always(),
            ..calm().network_config
        },
        ..calm()
    };
    let world = simulate(1, vec![NodeId::Node(0)], 4, config, at(0), Fixed(ms(20)));
    assert!(world.finished);
    let got: Vec<&Seen> =
        world.log.iter().filter(|seen| matches!(seen, Seen::Message(..))).collect();
    // one request in two copies, each answered in two copies
    assert_eq!(got.len(), 6);
    assert_eq!(world.elapsed, ms(50));
}

#[test]
fn spans_are_drawn_in_a_fixed_order() {
    let config = Configuration {
        max_sim_time: ms(100),
        network_config: NetworkConfig {
            duplicate_probability: Probability::never(),
            mean_time_between_link_failures: Some(ms(1000)),
            mean_link_recovery_time: ms(300),
            hold_probability: Probability::never(),
            mean_time_between_partitions: Some(ms(4000)),
            mean_partition_recovery_time: ms(700),
            ..NetworkConfig::default()
        },
        failure_config: FailureConfiguration {
            mean_time_between_failures: Some(ms(3000)),
            ..FailureConfiguration::default()
        },
        ..calm()
    };
    let asked = Rc::new(RefCell::new(Vec::new()));
    // every span is 60 ms: crashes, link failures and splits are due at
    // 60 ms, and every message takes 60 ms
    let sampler = Noting { span: ms(60), asked: asked.clone() };
    let targets = vec![NodeId::Node(1)];
    let world = simulate(3, targets, usize::MAX, config, at(0), sampler);
    assert!(!world.finished);
    let crash = ms(3000);
    let split = ms(4000);
    let heal = ms(700);
    let link_failure = ms(1000);
    let link_recovery = ms(300);
    let latency = ms(20);
    let asked = asked.borrow();
    assert_eq!(
        asked[..9],
        [
            // the set-up: the first crash of each server, then the first split
            crash,
            crash,
            crash,
            split,
            // the request of the tick at 0 ms makes the link and goes out
            link_failure,
            latency,
            // the request of the tick at 50 ms goes out
            latency,
            // the first request arrives at 60 ms and finds the crash of its
            // server due: the time down is drawn, and the request is dropped
            crash,
            // the request of the tick at 100 ms finds the split due
            heal,
        ]
    );
    // if the split does not cut the request off, it finds the link failing
    assert!(asked[9..].is_empty() || asked[9..] == [link_recovery]);
}

#[test]
fn invariants_are_checked_at_the_stride() {
    let every = simulate(1, vec![], 1, calm(), at(0), Fixed(ms(20)));
    // 21 ticks are handled
    assert_eq!(every.checks, 21);
    let third = Configuration { check_invariants_frequency: 3, ..calm() };
    assert_eq!(simulate(1, vec![], 1, third, at(0), Fixed(ms(20))).checks, 7);
    let rare = Configuration { check_invariants_frequency: 100, ..calm() };
    assert_eq!(simulate(1, vec![], 1, rare, at(0), Fixed(ms(20))).checks, 0);
}

#[test]
fn invariants_are_checked_once_more_at_the_end() {
    let rare = Configuration { check_invariants_frequency: 100, ..calm() };
    let world = simulate(1, vec![NodeId::Node(0)], 1, rare, at(0), Fixed(ms(20)));
    assert!(world.finished);
    assert_eq!(world.checks, 1);
}

#[test]
fn message_to_a_node_that_is_not_there_is_dropped() {
    let targets = vec![NodeId::Node(7), NodeId::Client(3), NodeId::Node(0)];
    let world = simulate(1, targets, 3, calm(), at(0), Fixed(ms(20)));
    assert!(world.finished);
    // only the server that is there has seen messages
    for seen in &world.log {
        if let Seen::Message(who, note, _) = seen {
            assert!(*who == NodeId::Node(0) || *who == NodeId::Client(0));
            assert!(note.to == NodeId::Node(0) || note.to == NodeId::Client(0));
        }
    }
}

#[test]
fn no_more_than_half_of_the_servers_are_down_at_once() {
    let config = Configuration {
        max_sim_time: Duration::from_secs(10),
        failure_config: FailureConfiguration {
            mean_time_between_failures: Some(ms(10)),
            ..FailureConfiguration::default()
        },
        ..calm()
    };
    let targets = (0..5).map(NodeId::Node).collect();
    // the checker panics where more than two of five servers are down
    let world = simulate(5, targets, usize::MAX, config, at(0), ExpSampler);
    assert!(!world.finished);
    assert!(world.checks > 1000);
    assert_eq!(world.most_down, 2);
    let recoveries: Vec<&Seen> =
        world.log.iter().filter(|seen| matches!(seen, Seen::Recover(..))).collect();
    assert!(recoveries.len() > 10);
    assert!(recoveries.iter().all(|seen| matches!(seen, Seen::Recover(_, _, 5))));
}

#[test]
fn a_single_server_never_crashes() {
    let config = Configuration {
        failure_config: FailureConfiguration {
            mean_time_between_failures: Some(ms(10)),
            ..FailureConfiguration::default()
        },
        ..calm()
    };
    let world = simulate(1, vec![NodeId::Node(0)], usize::MAX, config, at(0), ExpSampler);
    assert_eq!(world.most_down, 0);
    assert!(world.log.iter().all(|seen| !matches!(seen, Seen::Recover(..))));
}

#[test]
fn server_that_is_down_sees_nothing() {
    let config = Configuration {
        failure_config: FailureConfiguration {
            mean_time_between_failures: Some(ms(3000)),
            ..FailureConfiguration::default()
        },
        ..calm()
    };
    // every span is 120 ms: latencies are capped at 100 ms, server 0 is due
    // to crash at 120 ms and then stays down for 120 ms at a time
    let targets = vec![NodeId::Node(0)];
    let world = simulate(2, targets, usize::MAX, config, at(0), Fixed(ms(120)));
    let server = NodeId::Node(0);
    let seen_by_server: Vec<Instant> = world
        .log
        .iter()
        .filter_map(|seen| match seen {
            Seen::Message(who, _, now) if *who == server => Some(*now),
            Seen::Tick(who, now) if *who == server => Some(*now),
            _ => None,
        })
        .collect();
    // ticks at 0, 50 and 100 ms, the request of the first tick at 100 ms;
    // the request of the second tick, at 150 ms, finds the crash due
    assert_eq!(seen_by_server[..4], [at(0), at(50), at(100), at(100)]);
    assert!(!seen_by_server.contains(&at(150)));
    assert!(!seen_by_server.contains(&at(200)));
    assert!(!seen_by_server.contains(&at(250)));
    // down from 150 ms to 270 ms: the request that arrives at 300 ms, ahead
    // of the tick of that instant, restarts the server and reaches it
    let restart = world
        .log
        .iter()
        .position(|seen| matches!(seen, Seen::Recover(who, _, _) if *who == server))
        .expect("the server restarts");
    assert_eq!(world.log[restart], Seen::Recover(server, at(300), 2));
    assert_eq!(
        world.log[restart + 1],
        Seen::Message(server, Note { from: NodeId::Client(0), to: server, body: 10 }, at(300))
    );
}

#[test]
fn run_after_the_end_finds_nothing_left() {
    let log: Log = Rc::new(RefCell::new(Vec::new()));
    let peers = vec![Peer { id: NodeId::Node(0), recovering: false, log: log.clone() }];
    let driver = Driver {
        id: NodeId::Client(0),
        targets: vec![NodeId::Node(0)],
        wanted: 1,
        answers: 0,
        log: log.clone(),
    };
    let watch = Watch {
        checks: Rc::new(RefCell::new(0)),
        most_down: Rc::new(RefCell::new(0)),
        cap: 0,
    };
    let mut simulator = Simulator::new(at(0), peers, vec![driver], calm(), watch, Fixed(ms(20)))
        .expect("the simulation is set up");
    assert!(simulator.run());
    assert_eq!(simulator.elapsed(), ms(50));
    // the tick that found the client finished was the last event: it is
    // gone, nothing is left to handle, and the clock stays where it is
    assert!(!simulator.run());
    assert_eq!(simulator.elapsed(), ms(50));
}

fn world_of(
    servers: Vec<Peer>,
    clients: Vec<Driver>,
    config: Configuration,
) -> Simulator<Peer, Driver, Watch, Fixed> {
    let cap = servers.len() / 2;
    let watch =
        Watch { checks: Rc::new(RefCell::new(0)), most_down: Rc::new(RefCell::new(0)), cap };
    Simulator::new(at(0), servers, clients, config, watch, Fixed(ms(20)))
        .expect("the simulation is set up")
}

fn one_server_one_client(log: &Log, wanted: usize) -> (Vec<Peer>, Vec<Driver>) {
    let peers = vec![Peer { id: NodeId::Node(0), recovering: false, log: log.clone() }];
    let driver = Driver {
        id: NodeId::Client(0),
        targets: vec![NodeId::Node(0)],
        wanted,
        answers: 0,
        log: log.clone(),
    };
    (peers, vec![driver])
}

#[test]
fn run_is_a_row_of_steps() {
    let stepped_log: Log = Rc::new(RefCell::new(Vec::new()));
    let (peers, drivers) = one_server_one_client(&stepped_log, 3);
    let mut stepped = world_of(peers, drivers, calm());
    let mut steps = 0;
    let outcome = loop {
        steps += 1;
        if let Some(outcome) = stepped.step() {
            break outcome;
        }
    };

    let run_log: Log = Rc::new(RefCell::new(Vec::new()));
    let (peers, drivers) = one_server_one_client(&run_log, 3);
    let mut ran = world_of(peers, drivers, calm());
    assert_eq!(ran.run(), outcome);
    assert!(outcome);
    assert_eq!(ran.elapsed(), stepped.elapsed());
    assert_eq!(*run_log.borrow(), *stepped_log.borrow());
    // three ticks, three requests and three answers are handled; the step
    // that takes the tick at 150 ms finds the client finished
    assert_eq!(steps, 10);
    assert_eq!(stepped.elapsed(), ms(150));
}

#[test]
fn step_handles_one_event() {
    let log: Log = Rc::new(RefCell::new(Vec::new()));
    let (peers, drivers) = one_server_one_client(&log, 3);
    let mut simulator = world_of(peers, drivers, calm());
    let server = NodeId::Node(0);
    let client = NodeId::Client(0);

    // the first tick
    assert_eq!(simulator.step(), None);
    assert_eq!(simulator.elapsed(), ms(0));
    assert_eq!(*log.borrow(), vec![Seen::Tick(server, at(0)), Seen::Tick(client, at(0))]);

    // the request that the client sent at the tick
    assert_eq!(simulator.step(), None);
    assert_eq!(simulator.elapsed(), ms(20));
    assert_eq!(
        log.borrow()[2],
        Seen::Message(server, Note { from: client, to: server, body: 10 }, at(20))
    );

    // the answer of the server
    assert_eq!(simulator.step(), None);
    assert_eq!(simulator.elapsed(), ms(40));
    assert_eq!(
        log.borrow()[3],
        Seen::Message(client, Note { from: server, to: client, body: 11 }, at(40))
    );
    assert_eq!(log.borrow().len(), 4);
}

#[test]
fn step_beyond_the_budget_ends_the_run_and_handles_nothing() {
    let log: Log = Rc::new(RefCell::new(Vec::new()));
    let peers = vec![Peer { id: NodeId::Node(0), recovering: false, log: log.clone() }];
    let driver =
        Driver { id: NodeId::Client(0), targets: vec![], wanted: 1, answers: 0, log: log.clone() };
    let config = Configuration { max_sim_time: ms(49), ..calm() };
    let mut simulator = world_of(peers, vec![driver], config);
    assert_eq!(simulator.step(), None);
    let seen = log.borrow().len();
    // the tick at 50 ms lies beyond 49 ms
    assert_eq!(simulator.step(), Some(false));
    assert_eq!(simulator.elapsed(), ms(50));
    assert_eq!(log.borrow().len(), seen);
    // it was the last event: nothing is left to take
    assert_eq!(simulator.step(), Some(false));
    assert_eq!(simulator.elapsed(), ms(50));
}

#[test]
fn budget_is_tested_before_the_clients_are_asked() {
    let log: Log = Rc::new(RefCell::new(Vec::new()));
    let peers = vec![Peer { id: NodeId::Node(0), recovering: false, log: log.clone() }];
    // a client that has finished from the start
    let driver =
        Driver { id: NodeId::Client(0), targets: vec![], wanted: 0, answers: 0, log: log.clone() };
    let config = Configuration { max_sim_time: ms(10), ..calm() };
    let late = Instant::from_nanos(0);
    let watch =
        Watch { checks: Rc::new(RefCell::new(0)), most_down: Rc::new(RefCell::new(0)), cap: 0 };
    let mut simulator = Simulator::new(late, peers, vec![driver], config, watch, Fixed(ms(20)))
        .expect("the simulation is set up");
    // within the budget the finished client ends the run with success
    assert_eq!(simulator.step(), Some(true));
    assert!(log.borrow().is_empty());
}

#[test]
fn run_without_clients_ends_at_the_first_event() {
    let log: Log = Rc::new(RefCell::new(Vec::new()));
    let peers = vec![Peer { id: NodeId::Node(0), recovering: false, log: log.clone() }];
    let mut simulator = world_of(peers, vec![], calm());
    assert!(simulator.run());
    assert_eq!(simulator.elapsed(), ms(0));
    // the first tick was taken, not handled
    assert!(log.borrow().is_empty());
}

#[test]
fn server_that_recovers_does_not_count_as_down() {
    let log: Log = Rc::new(RefCell::new(Vec::new()));
    let peers = vec![
        Peer { id: NodeId::Node(0), recovering: false, log: log.clone() },
        Peer { id: NodeId::Node(1), recovering: true, log: log.clone() },
    ];
    let driver = Driver {
        id: NodeId::Client(0),
        targets: vec![NodeId::Node(0)],
        wanted: usize::MAX,
        answers: 0,
        log: log.clone(),
    };
    let config = Configuration {
        max_sim_time: ms(100),
        failure_config: FailureConfiguration {
            mean_time_between_failures: Some(ms(3000)),
            ..FailureConfiguration::default()
        },
        ..calm()
    };
    // every span is 20 ms: server 0 is due to crash at 20 ms, when the first
    // request arrives; neither server is down then, so it may crash
    let mut simulator = world_of(peers, vec![driver], config);
    assert!(!simulator.run());
    let server = NodeId::Node(0);
    let reached = log
        .borrow()
        .iter()
        .filter(|seen| matches!(seen, Seen::Message(who, _, now) if *who == server && *now == at(20)))
        .count();
    assert_eq!(reached, 0);
    let restarted = log
        .borrow()
        .iter()
        .any(|seen| matches!(seen, Seen::Recover(who, _, 2) if *who == server));
    assert!(restarted);
}

#[test]
fn first_stray_destination_is_kept() {
    let log: Log = Rc::new(RefCell::new(Vec::new()));
    let peers = vec![Peer { id: NodeId::Node(0), recovering: false, log: log.clone() }];
    let driver = Driver {
        id: NodeId::Client(0),
        targets: vec![NodeId::Node(0), NodeId::Client(3), NodeId::Node(7)],
        wanted: 2,
        answers: 0,
        log: log.clone(),
    };
    let mut simulator = world_of(peers, vec![driver], calm());
    assert_eq!(simulator.stray_destination(), None);
    // the tick, at which the client sends its three notes
    assert_eq!(simulator.step(), None);
    assert_eq!(simulator.stray_destination(), None);
    // the note to the server
    assert_eq!(simulator.step(), None);
    assert_eq!(simulator.stray_destination(), None);
    // the note to a client that is not there
    assert_eq!(simulator.step(), None);
    assert_eq!(simulator.stray_destination(), Some(NodeId::Client(3)));
    // the note to a server that is not there
    assert_eq!(simulator.step(), None);
    assert_eq!(simulator.stray_destination(), Some(NodeId::Client(3)));
    assert_eq!(simulator.elapsed(), ms(20));
    assert!(simulator.run());
    assert_eq!(simulator.stray_destination(), Some(NodeId::Client(3)));
    // nobody has seen the stray notes
    assert_eq!(
        log.borrow().iter().filter(|seen| matches!(seen, Seen::Message(..))).count(),
        4
    );
}

#[test]
fn no_stray_destination_where_every_message_finds_its_receiver() {
    let log: Log = Rc::new(RefCell::new(Vec::new()));
    let (peers, drivers) = one_server_one_client(&log, 3);
    let mut simulator = world_of(peers, drivers, calm());
    assert!(simulator.run());
    assert_eq!(simulator.stray_destination(), None);
}

#[test]
fn delays_are_counted_in_nanoseconds() {
    // every latency sample is 20.500001 ms
    let span = Duration::from_nanos(20_500_001);
    let world = simulate(1, vec![NodeId::Node(0)], 1, calm(), at(0), Fixed(span));
    assert!(world.finished);
    let server = NodeId::Node(0);
    let client = NodeId::Client(0);
    assert_eq!(
        world.log,
        vec![
            Seen::Tick(server, at(0)),
            Seen::Tick(client, at(0)),
            Seen::Message(
                server,
                Note { from: client, to: server, body: 10 },
                Instant::from_nanos(20_500_001)
            ),
            Seen::Message(
                client,
                Note { from: server, to: client, body: 11 },
                Instant::from_nanos(41_000_002)
            ),
        ]
    );
    assert_eq!(world.elapsed, ms(50));
}
