use detsim::node::{sample_next_failure, NodeTransition};
use detsim::{
    DeterministicNode, Duration, ExponentialSampler, FailureConfiguration, Instant, Node, NodeId,
    NodeState, ProtocolMessage, SimRng,
};
use rand_chacha::ChaCha8Rng;
use std::cell::RefCell;
use std::rc::Rc;

/// Hands out the spans of a script in their order and notes the means that
/// it was asked for. Once the script is used up it repeats the last span.
struct Scripted {
    spans: Vec<Duration>,
    asked: Rc<RefCell<Vec<Duration>>>,
}

impl ExponentialSampler for Scripted {
    fn sample(&mut self, mean: Duration, _rng: &mut ChaCha8Rng) -> Duration {
        let at = self.asked.borrow().len().min(self.spans.len() - 1);
        self.asked.borrow_mut().push(mean);
        self.spans[at]
    }
}

fn scripted(seed: u64, millis: &[u64]) -> (SimRng<Scripted>, Rc<RefCell<Vec<Duration>>>) {
    let asked = Rc::new(RefCell::new(Vec::new()));
    let spans = millis.iter().map(|ms| Duration::from_millis(*ms)).collect();
    (SimRng::new(seed, Scripted { spans, asked: asked.clone() }), asked)
}

fn ms(millis: u64) -> Duration {
    Duration::from_millis(millis)
}

fn at(millis: u64) -> Instant {
    Instant::from_nanos(millis * 1_000_000)
}

#[derive(Debug, Clone, PartialEq, Eq)]
struct Ping(u32);

impl ProtocolMessage for Ping {
    fn source(&self) -> NodeId {
        NodeId::Client(0)
    }

    fn destination(&self) -> NodeId {
        NodeId::Node(0)
    }
}

/// What happened to the server, in order.
#[derive(Debug, Clone, PartialEq, Eq)]
enum Call {
    Tick(Instant),
    Message(u32, Instant),
    Recover(Instant, u64, usize),
}

#[derive(Debug)]
struct Server {
    id: NodeId,
    recovering: bool,
    calls: Vec<Call>,
}

impl Server {
    fn new(index: usize) -> Self {
        Server { id: NodeId::Node(index), recovering: false, calls: Vec::new() }
    }
}

impl DeterministicNode for Server {
    type Message = Ping;

    fn id(&self) -> NodeId {
        self.id
    }

    fn tick(&mut self, now: Instant) -> Vec<Ping> {
        self.calls.push(Call::Tick(now));
        vec![Ping(0)]
    }

    fn process_message(&mut self, msg: Ping, now: Instant) -> Vec<Ping> {
        self.calls.push(Call::Message(msg.0, now));
        vec![Ping(msg.0 + 1), Ping(msg.0 + 2)]
    }

    fn recover(&mut self, now: Instant, nonce: u64, replica_count: usize) {
        self.calls.push(Call::Recover(now, nonce, replica_count));
    }

    fn is_recovering(&self) -> bool {
        self.recovering
    }
}

fn crashing() -> FailureConfiguration {
    FailureConfiguration { mean_time_between_failures: Some(ms(3000)), mean_time_to_recover: ms(1) }
}

fn steady() -> FailureConfiguration {
    FailureConfiguration { mean_time_between_failures: None, mean_time_to_recover: ms(1) }
}

#[test]
fn node_state_knows_its_variant() {
    let normal = NodeState::Normal { failure_time: None };
    let failed = NodeState::Failed { recovery_time: at(1) };
    assert!(normal.is_normal() && !normal.is_failed());
    assert!(failed.is_failed() && !failed.is_normal());
}

#[test]
fn node_pending_tells_what_is_due() {
    let normal = NodeState::Normal { failure_time: Some(at(10)) };
    assert_eq!(normal.pending(at(9), true), NodeTransition::Stay);
    assert_eq!(normal.pending(at(10), true), NodeTransition::Crash);
    // a crash that is due waits until it is allowed
    assert_eq!(normal.pending(at(10), false), NodeTransition::Stay);
    assert_eq!(NodeState::Normal { failure_time: None }.pending(at(10), true), NodeTransition::Stay);
    let failed = NodeState::Failed { recovery_time: at(10) };
    assert_eq!(failed.pending(at(9), true), NodeTransition::Stay);
    // a recovery needs no leave
    assert_eq!(failed.pending(at(10), false), NodeTransition::Restart);
}

#[test]
fn next_failure_is_drawn_where_servers_crash() {
    let (mut rng, asked) = scripted(1, &[250]);
    assert_eq!(sample_next_failure(at(100), &crashing(), &mut rng), Some(at(350)));
    assert_eq!(sample_next_failure(at(100), &steady(), &mut rng), None);
    assert_eq!(*asked.borrow(), vec![ms(3000)]);
}

#[test]
fn new_node_draws_its_first_crash() {
    let (mut rng, asked) = scripted(1, &[1200]);
    let node = Node::new(Server::new(4), crashing(), &mut rng, at(100), 5);
    assert_eq!(node.state(), NodeState::Normal { failure_time: Some(at(1300)) });
    assert_eq!(*asked.borrow(), vec![ms(3000)]);
    assert_eq!(node.id(), NodeId::Node(4));
    assert_eq!(node.node().id, NodeId::Node(4));
    assert!(node.is_up());
}

#[test]
fn new_node_without_crashes_draws_nothing() {
    let (mut rng, asked) = scripted(1, &[1200]);
    let mut node = Node::new(Server::new(0), steady(), &mut rng, at(100), 1);
    assert_eq!(node.state(), NodeState::Normal { failure_time: None });
    assert!(!node.has_failed(at(1_000_000), true, &mut rng));
    assert_eq!(node.state(), NodeState::Normal { failure_time: None });
    assert!(asked.borrow().is_empty());
}

#[test]
fn node_that_recovers_is_not_up() {
    let (mut rng, _) = scripted(1, &[1200]);
    let mut server = Server::new(0);
    server.recovering = true;
    let node = Node::new(server, steady(), &mut rng, at(0), 1);
    assert!(!node.is_up());
    assert_eq!(node.state(), NodeState::Normal { failure_time: None });
}

#[test]
fn tick_never_makes_a_node_crash() {
    let (mut rng, _) = scripted(1, &[1200]);
    let mut node = Node::new(Server::new(0), crashing(), &mut rng, at(0), 3);
    let out = node.tick(at(5000), &mut rng);
    assert_eq!(out, vec![Ping(0)]);
    assert_eq!(node.state(), NodeState::Normal { failure_time: Some(at(1200)) });
    assert_eq!(node.node().calls, vec![Call::Tick(at(5000))]);
}

#[test]
fn message_without_leave_does_not_make_a_node_crash() {
    let (mut rng, _) = scripted(1, &[1200]);
    let mut node = Node::new(Server::new(0), crashing(), &mut rng, at(0), 3);
    let out = node.process_message(Ping(7), at(5000), false, &mut rng);
    assert_eq!(out, vec![Ping(8), Ping(9)]);
    assert!(node.is_up());
    assert_eq!(node.node().calls, vec![Call::Message(7, at(5000))]);
}

#[test]
fn message_before_the_crash_is_processed() {
    let (mut rng, _) = scripted(1, &[1200]);
    let mut node = Node::new(Server::new(0), crashing(), &mut rng, at(0), 3);
    let out = node.process_message(Ping(7), at(1199), true, &mut rng);
    assert_eq!(out, vec![Ping(8), Ping(9)]);
    assert_eq!(node.state(), NodeState::Normal { failure_time: Some(at(1200)) });
}

#[test]
fn node_crashes_drops_and_restarts() {
    // first crash 1200 ms after the start, recovery 400 ms after the crash,
    // next crash 2500 ms after the restart
    let (mut rng, asked) = scripted(1, &[1200, 400, 2500]);
    let mut node = Node::new(Server::new(0), crashing(), &mut rng, at(0), 3);

    // the message that finds the crash due is dropped
    let out = node.process_message(Ping(1), at(1200), true, &mut rng);
    assert!(out.is_empty());
    assert_eq!(node.state(), NodeState::Failed { recovery_time: at(1600) });
    assert!(!node.is_up());

    // while it is down the server neither ticks nor sees messages
    assert!(node.tick(at(1300), &mut rng).is_empty());
    assert!(node.process_message(Ping(2), at(1599), true, &mut rng).is_empty());
    assert!(node.node().calls.is_empty());

    // a tick restarts it once the recovery is due, and then reaches it
    let out = node.tick(at(1600), &mut rng);
    assert_eq!(out, vec![Ping(0)]);
    assert_eq!(node.state(), NodeState::Normal { failure_time: Some(at(4100)) });
    assert!(node.is_up());
    let calls = &node.node().calls;
    assert_eq!(calls.len(), 2);
    match &calls[0] {
        Call::Recover(now, _nonce, replica_count) => {
            assert_eq!(*now, at(1600));
            assert_eq!(*replica_count, 3);
        }
        other => panic!("{other:?}"),
    }
    assert_eq!(calls[1], Call::Tick(at(1600)));

    // the time down is drawn with the mean time between failures
    assert_eq!(*asked.borrow(), vec![ms(3000), ms(3000), ms(3000)]);
}

#[test]
fn has_failed_tells_whether_the_node_is_down() {
    let (mut rng, _) = scripted(1, &[10, 20, 30]);
    let mut node = Node::new(Server::new(0), crashing(), &mut rng, at(0), 3);
    assert!(!node.has_failed(at(9), true, &mut rng));
    assert!(!node.has_failed(at(10), false, &mut rng));
    assert!(node.has_failed(at(10), true, &mut rng));
    assert!(node.has_failed(at(29), true, &mut rng));
    assert!(!node.has_failed(at(30), false, &mut rng));
    assert_eq!(node.state(), NodeState::Normal { failure_time: Some(at(60)) });
}

#[test]
fn nonce_comes_from_the_seeded_stream() {
    let nonce_for = |seed: u64| {
        let (mut rng, _) = scripted(seed, &[10]);
        let mut node = Node::new(Server::new(0), crashing(), &mut rng, at(0), 3);
        assert!(node.has_failed(at(10), true, &mut rng));
        assert!(!node.has_failed(at(20), true, &mut rng));
        match node.node().calls[0] {
            Call::Recover(_, nonce, _) => nonce,
            _ => panic!("no recovery"),
        }
    };
    assert_eq!(nonce_for(1), nonce_for(1));
    assert_ne!(nonce_for(1), nonce_for(2));
}

#[test]
fn two_restarts_get_two_nonces() {
    let (mut rng, _) = scripted(1, &[10]);
    let mut node = Node::new(Server::new(0), crashing(), &mut rng, at(0), 3);
    assert!(node.has_failed(at(10), true, &mut rng));
    assert!(!node.has_failed(at(20), true, &mut rng));
    assert!(node.has_failed(at(30), true, &mut rng));
    assert!(!node.has_failed(at(40), true, &mut rng));
    let nonces: Vec<u64> = node
        .node()
        .calls
        .iter()
        .map(|call| match call {
            Call::Recover(_, nonce, _) => *nonce,
            other => panic!("{other:?}"),
        })
        .collect();
    assert_eq!(nonces.len(), 2);
    assert_ne!(nonces[0], nonces[1]);
}
