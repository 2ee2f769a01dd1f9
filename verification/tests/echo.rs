use detsim::{
    Configuration, DeterministicClient, DeterministicNode, Duration, ExponentialSampler,
    FailureConfiguration, Instant, InvariantChecker, NetworkConfig, Node, NodeId, Probability,
    ProtocolMessage, SetupError, Simulator,
};
use rand_chacha::ChaCha8Rng;
use rand_distr::{Distribution, Exp};
use std::cell::RefCell;
use std::collections::HashSet;
use std::rc::Rc;

/// Exponential spans drawn with `rand_distr`, as seconds in floating point.
struct ExpSampler;

impl ExponentialSampler for ExpSampler {
    fn sample(&mut self, mean: Duration, rng: &mut ChaCha8Rng) -> Duration {
        let mean = std::time::Duration::from_nanos(mean.as_nanos());
        let mult: f64 = Exp::new(1.0 / mean.as_secs_f64()).unwrap().sample(rng);
        Duration::from_nanos(std::time::Duration::from_secs_f64(mult).as_nanos() as u64)
    }
}

#[derive(Debug, Clone, Eq, PartialEq)]
enum EchoMessage {
    Request { id: u64, data: String },
    Response { id: u64, data: String },
}

impl ProtocolMessage for EchoMessage {
    fn source(&self) -> NodeId {
        match self {
            EchoMessage::Request { .. } => NodeId::Client(0),
            EchoMessage::Response { .. } => NodeId::Node(0),
        }
    }

    fn destination(&self) -> NodeId {
        match self {
            EchoMessage::Request { .. } => NodeId::Node(0),
            EchoMessage::Response { .. } => NodeId::Client(0),
        }
    }
}

/// One delivery as the protocol saw it: when, from whom, to whom, which request.
type Trace = Rc<RefCell<Vec<(u64, NodeId, NodeId, u64)>>>;

#[derive(Debug)]
struct EchoServer {
    id: NodeId,
    replied_requests: HashSet<u64>,
    trace: Trace,
}

impl DeterministicNode for EchoServer {
    type Message = EchoMessage;

    fn id(&self) -> NodeId {
        self.id
    }

    fn tick(&mut self, _now: Instant) -> Vec<Self::Message> {
        vec![]
    }

    fn process_message(&mut self, msg: Self::Message, now: Instant) -> Vec<Self::Message> {
        match msg {
            EchoMessage::Request { id, data } => {
                self.trace.borrow_mut().push((now.as_nanos(), NodeId::Client(0), self.id, id));
                self.replied_requests.insert(id);
                vec![EchoMessage::Response { id, data }]
            }
            _ => vec![],
        }
    }

    fn recover(&mut self, _now: Instant, _nonce: u64, _replica_count: usize) {}

    fn is_recovering(&self) -> bool {
        false
    }
}

#[derive(Debug)]
struct EchoClient {
    id: NodeId,
    current_request: u64,
    total_requests: u64,
    completed_requests: HashSet<u64>,
    last_request_time: Option<Instant>,
    retry_interval: Duration,
    with_retries: bool,
    trace: Trace,
}

impl EchoClient {
    fn new(total_requests: u64, retry_interval: Duration, with_retries: bool, trace: Trace) -> Self {
        EchoClient {
            id: NodeId::Client(0),
            current_request: 0,
            total_requests,
            completed_requests: HashSet::new(),
            last_request_time: None,
            retry_interval,
            with_retries,
            trace,
        }
    }
}

impl DeterministicClient for EchoClient {
    type Message = EchoMessage;

    fn id(&self) -> NodeId {
        self.id
    }

    fn tick(&mut self, now: Instant) -> Vec<Self::Message> {
        let mut messages = Vec::new();

        // Send next request
        if (self.completed_requests.contains(&self.current_request)
            || (self.current_request == 0 && self.last_request_time.is_none()))
            && self.current_request <= self.total_requests
        {
            self.current_request += 1;
            self.last_request_time = Some(now);
            messages.push(EchoMessage::Request {
                id: self.current_request,
                data: format!("echo_{}", self.current_request),
            });
        }

        // Handle retries if enabled
        if self.with_retries {
            if let Some(last_time) = self.last_request_time {
                if now.duration_since(last_time) >= self.retry_interval {
                    messages.push(EchoMessage::Request {
                        id: self.current_request,
                        data: format!("echo_{}", self.current_request),
                    });

                    self.last_request_time = Some(now);
                }
            }
        }

        messages
    }

    fn process_message(&mut self, msg: Self::Message, now: Instant) -> Vec<Self::Message> {
        if let EchoMessage::Response { id, .. } = msg {
            self.trace.borrow_mut().push((now.as_nanos(), NodeId::Node(0), self.id, id));
            self.completed_requests.insert(id);
        }
        vec![]
    }

    fn finished(&self) -> bool {
        self.completed_requests.len() as u64 == self.total_requests
    }
}

/// What the checker saw when it was last asked.
#[derive(Debug, Default)]
struct Seen {
    checks: usize,
    completed: usize,
    replied_covers_completed: bool,
}

#[derive(Debug)]
struct EchoInvariantChecker {
    seen: Rc<RefCell<Seen>>,
}

impl InvariantChecker<EchoServer, EchoClient> for EchoInvariantChecker {
    fn check_invariants(&self, seed: u64, nodes: &[Node<EchoServer>], clients: &[EchoClient]) {
        let client = &clients[0];
        let server = &nodes[0];

        for request_id in &client.completed_requests {
            // every request that the client sees as completed should have been replied by the server
            assert!(
                server.node().replied_requests.contains(request_id),
                "Request {} was not replied by the server (seed: {})",
                request_id,
                seed
            );

            // and current request should be greater or equal to the completed request
            assert!(
                client.current_request >= *request_id,
                "Current request {} is less than the completed request {} (seed: {})",
                client.current_request,
                request_id,
                seed
            );
        }
        let mut seen = self.seen.borrow_mut();
        seen.checks += 1;
        seen.completed = client.completed_requests.len();
        seen.replied_covers_completed =
            client.completed_requests.is_subset(&server.node().replied_requests);
    }
}

struct Outcome {
    finished: bool,
    elapsed: Duration,
    seen: Rc<RefCell<Seen>>,
    trace: Trace,
}

fn run_echo(config: Configuration, total_requests: u64, with_retries: bool) -> Outcome {
    let start_time = Instant::origin();
    let trace: Trace = Rc::new(RefCell::new(Vec::new()));
    let seen = Rc::new(RefCell::new(Seen::default()));

    let server =
        EchoServer { id: NodeId::Node(0), replied_requests: HashSet::new(), trace: trace.clone() };

    let client =
        EchoClient::new(total_requests, Duration::from_millis(200), with_retries, trace.clone());

    let checker = EchoInvariantChecker { seen: seen.clone() };

    let mut simulator =
        Simulator::new(start_time, vec![server], vec![client], config, checker, ExpSampler)
            .expect("the simulation is set up");

    let finished = simulator.run();
    Outcome { finished, elapsed: simulator.elapsed(), seen, trace }
}

fn echo_configuration(network_config: NetworkConfig) -> Configuration {
    Configuration {
        tick_interval: Duration::from_millis(50),
        max_sim_time: Duration::from_secs(30),
        seed: 1,
        check_invariants_frequency: 1,
        network_config,
        ..Configuration::default()
    }
}

fn test_echo_protocol(network_config: NetworkConfig, total_requests: u64, with_retries: bool) {
    let outcome = run_echo(echo_configuration(network_config), total_requests, with_retries);
    assert!(outcome.finished);
}

#[test]
fn test_reliable_network() {
    let config = NetworkConfig {
        mean_time_between_link_failures: None,
        mean_time_between_partitions: None,
        ..NetworkConfig::default()
    };
    test_echo_protocol(config, 10, false);
}

#[test]
fn test_unreliable_network_with_retries() {
    let config = NetworkConfig::default();
    test_echo_protocol(config, 10, true);
}

#[test]
fn reliable_echo_completes_every_request() {
    let network_config = NetworkConfig {
        mean_time_between_link_failures: None,
        mean_time_between_partitions: None,
        duplicate_probability: Probability::never(),
        ..NetworkConfig::default()
    };
    let config = Configuration {
        failure_config: FailureConfiguration {
            mean_time_between_failures: None,
            ..FailureConfiguration::default()
        },
        ..echo_configuration(network_config)
    };
    let outcome = run_echo(config, 10, false);
    assert!(outcome.finished);
    let seen = outcome.seen.borrow();
    assert_eq!(seen.completed, 10);
    assert!(seen.replied_covers_completed);
    assert!(seen.checks > 0);
    // without duplicates, every request and every response arrives once
    assert_eq!(outcome.trace.borrow().len(), 20);
    assert!(outcome.elapsed <= Duration::from_secs(30));
}

#[test]
fn unreliable_echo_without_retries_keeps_replied_over_completed() {
    let outcome = run_echo(echo_configuration(NetworkConfig::default()), 10, false);
    let seen = outcome.seen.borrow();
    assert!(seen.checks > 0);
    assert!(seen.replied_covers_completed);
    assert_eq!(outcome.finished, seen.completed == 10);
}

#[test]
fn unreliable_echo_without_retries_with_the_first_seed() {
    // with seed 1 no message is lost before the client has its ten responses
    let outcome = run_echo(echo_configuration(NetworkConfig::default()), 10, false);
    assert!(outcome.finished);
    assert_eq!(outcome.elapsed, Duration::from_millis(750));
    let seen = outcome.seen.borrow();
    assert_eq!(seen.completed, 10);
    assert_eq!(seen.checks, 38);
    assert!(seen.replied_covers_completed);
    // ten requests and ten responses, and two deliveries that came twice
    assert_eq!(outcome.trace.borrow().len(), 22);
}

#[test]
fn unreliable_echo_without_retries_runs_out_of_time() {
    // one lost message stalls a client that does not retry
    let config = Configuration { seed: 3, ..echo_configuration(NetworkConfig::default()) };
    let outcome = run_echo(config, 10, false);
    assert!(!outcome.finished);
    assert!(outcome.elapsed > Duration::from_secs(30));
    let seen = outcome.seen.borrow();
    assert!(seen.completed < 10);
    assert!(seen.replied_covers_completed);
}

#[test]
fn unreliable_echo_with_retries_keeps_replied_over_completed() {
    let outcome = run_echo(echo_configuration(NetworkConfig::default()), 10, true);
    assert!(outcome.finished);
    let seen = outcome.seen.borrow();
    assert_eq!(seen.completed, 10);
    assert!(seen.replied_covers_completed);
}

#[test]
fn same_seed_gives_the_same_trace() {
    let first = run_echo(echo_configuration(NetworkConfig::default()), 10, true);
    let second = run_echo(echo_configuration(NetworkConfig::default()), 10, true);
    assert_eq!(first.finished, second.finished);
    assert_eq!(first.elapsed, second.elapsed);
    assert!(!first.trace.borrow().is_empty());
    assert_eq!(*first.trace.borrow(), *second.trace.borrow());
}

#[test]
fn another_seed_gives_another_trace() {
    let first = run_echo(echo_configuration(NetworkConfig::default()), 10, true);
    let config = Configuration { seed: 2, ..echo_configuration(NetworkConfig::default()) };
    let second = run_echo(config, 10, true);
    assert_ne!(*first.trace.borrow(), *second.trace.borrow());
}

#[test]
fn deliveries_never_go_back_in_time() {
    let outcome = run_echo(echo_configuration(NetworkConfig::default()), 10, true);
    let trace = outcome.trace.borrow();
    for pair in trace.windows(2) {
        assert!(pair[0].0 <= pair[1].0);
    }
}

#[test]
fn time_budget_ends_the_run() {
    let config = Configuration {
        max_sim_time: Duration::from_millis(120),
        ..echo_configuration(NetworkConfig::default())
    };
    // a client that wants more requests than the budget allows
    let outcome = run_echo(config, 1000, true);
    assert!(!outcome.finished);
    // ticks fire every 50 ms: the first event beyond 120 ms is due by 150 ms
    assert!(outcome.elapsed > Duration::from_millis(120));
    assert!(outcome.elapsed <= Duration::from_millis(150));
}

#[test]
fn client_without_work_finishes_at_the_first_event() {
    let outcome = run_echo(echo_configuration(NetworkConfig::default()), 0, false);
    assert!(outcome.finished);
    assert_eq!(outcome.elapsed, Duration::zero());
    // the final check of the invariants is made even so
    assert_eq!(outcome.seen.borrow().checks, 1);
}

fn setup_error(
    servers: Vec<NodeId>,
    clients: Vec<NodeId>,
    config: Configuration,
    start_time: Instant,
) -> Option<SetupError> {
    let trace: Trace = Rc::new(RefCell::new(Vec::new()));
    let servers = servers
        .into_iter()
        .map(|id| EchoServer { id, replied_requests: HashSet::new(), trace: trace.clone() })
        .collect();
    let clients = clients
        .into_iter()
        .map(|id| {
            let mut client = EchoClient::new(1, Duration::from_millis(200), false, trace.clone());
            client.id = id;
            client
        })
        .collect();
    let checker = EchoInvariantChecker { seen: Rc::new(RefCell::new(Seen::default())) };
    Simulator::new(start_time, servers, clients, config, checker, ExpSampler).err()
}

#[test]
fn sequential_ids_are_accepted() {
    let config = Configuration::default();
    assert_eq!(
        setup_error(
            vec![NodeId::Node(0), NodeId::Node(1), NodeId::Node(2)],
            vec![NodeId::Client(0), NodeId::Client(1)],
            config,
            Instant::origin()
        ),
        None
    );
    assert_eq!(setup_error(vec![], vec![], config, Instant::origin()), None);
}

#[test]
fn server_ids_with_a_gap_are_refused() {
    let config = Configuration::default();
    assert_eq!(
        setup_error(
            vec![NodeId::Node(0), NodeId::Node(2)],
            vec![NodeId::Client(0)],
            config,
            Instant::origin()
        ),
        Some(SetupError::NodeIdsNotSequential)
    );
}

#[test]
fn server_ids_that_start_at_one_are_refused() {
    let config = Configuration::default();
    assert_eq!(
        setup_error(vec![NodeId::Node(1)], vec![NodeId::Client(0)], config, Instant::origin()),
        Some(SetupError::NodeIdsNotSequential)
    );
}

#[test]
fn server_ids_out_of_order_are_refused() {
    let config = Configuration::default();
    assert_eq!(
        setup_error(
            vec![NodeId::Node(1), NodeId::Node(0)],
            vec![NodeId::Client(0)],
            config,
            Instant::origin()
        ),
        Some(SetupError::NodeIdsNotSequential)
    );
}

#[test]
fn server_with_the_tag_of_a_client_is_refused() {
    let config = Configuration::default();
    assert_eq!(
        setup_error(vec![NodeId::Client(0)], vec![NodeId::Client(0)], config, Instant::origin()),
        Some(SetupError::NodeIdsNotSequential)
    );
}

#[test]
fn client_ids_with_a_repeat_are_refused() {
    let config = Configuration::default();
    assert_eq!(
        setup_error(
            vec![NodeId::Node(0)],
            vec![NodeId::Client(0), NodeId::Client(0)],
            config,
            Instant::origin()
        ),
        Some(SetupError::ClientIdsNotSequential)
    );
}

#[test]
fn client_with_the_tag_of_a_server_is_refused() {
    let config = Configuration::default();
    assert_eq!(
        setup_error(vec![NodeId::Node(0)], vec![NodeId::Node(0)], config, Instant::origin()),
        Some(SetupError::ClientIdsNotSequential)
    );
}

#[test]
fn server_ids_are_checked_before_client_ids() {
    let config = Configuration::default();
    assert_eq!(
        setup_error(vec![NodeId::Node(3)], vec![NodeId::Client(7)], config, Instant::origin()),
        Some(SetupError::NodeIdsNotSequential)
    );
}

#[test]
fn unusable_configuration_is_refused() {
    let config = Configuration { check_invariants_frequency: 0, ..Configuration::default() };
    assert_eq!(
        setup_error(vec![NodeId::Node(0)], vec![NodeId::Client(0)], config, Instant::origin()),
        Some(SetupError::InvalidConfiguration)
    );
    let zero_mean = Configuration {
        failure_config: FailureConfiguration {
            mean_time_between_failures: Some(Duration::zero()),
            ..FailureConfiguration::default()
        },
        ..Configuration::default()
    };
    assert_eq!(
        setup_error(vec![NodeId::Node(0)], vec![NodeId::Client(0)], zero_mean, Instant::origin()),
        Some(SetupError::InvalidConfiguration)
    );
}

#[test]
fn configuration_is_checked_before_ids() {
    let config = Configuration { check_invariants_frequency: 0, ..Configuration::default() };
    assert_eq!(
        setup_error(vec![NodeId::Node(5)], vec![], config, Instant::origin()),
        Some(SetupError::InvalidConfiguration)
    );
}

#[test]
fn time_budget_beyond_the_clock_is_refused() {
    let config = Configuration::default();
    // ten seconds of budget and a step of 100 ms do not fit behind this start
    let late = Instant::from_nanos(u64::MAX - 10_099_999_999);
    assert_eq!(
        setup_error(vec![NodeId::Node(0)], vec![NodeId::Client(0)], config, late),
        Some(SetupError::TimeBudgetTooLong)
    );
    let just_in_time = Instant::from_nanos(u64::MAX - 10_100_000_000);
    assert_eq!(
        setup_error(vec![NodeId::Node(0)], vec![NodeId::Client(0)], config, just_in_time),
        None
    );
}

#[test]
fn setup_errors_say_what_is_wrong() {
    assert_eq!(
        SetupError::NodeIdsNotSequential.message(),
        "Node IDs must be sequential starting from 0"
    );
    assert_eq!(
        SetupError::ClientIdsNotSequential.message(),
        "Client IDs must be sequential starting from 0"
    );
    assert_ne!(
        SetupError::InvalidConfiguration.message(),
        SetupError::TimeBudgetTooLong.message()
    );
}
