use detsim::node_id::link_key;
use detsim::simulator::{all_ids, are_sequential, quorum_allows_failure, validate_ids};
use detsim::util::failure_time_after;
use detsim::{
    Configuration, Duration, EventQueue, EventTime, ExponentialRate, FailureConfiguration,
    Instant, NetworkConfig, NodeId, Probability, ProtocolMessage, SetupError, SimulationMessage,
};

fn ms(millis: u64) -> Duration {
    Duration::from_millis(millis)
}

fn at(millis: u64) -> Instant {
    Instant::from_nanos(millis * 1_000_000)
}

#[test]
fn durations_count_nanoseconds() {
    assert_eq!(Duration::from_nanos(17).as_nanos(), 17);
    assert_eq!(Duration::from_millis(50).as_nanos(), 50_000_000);
    assert_eq!(Duration::from_secs(30).as_nanos(), 30_000_000_000);
    assert_eq!(Duration::from_secs(2), Duration::from_millis(2000));
    assert_eq!(Duration::zero().as_nanos(), 0);
}

#[test]
fn as_millis_drops_the_rest() {
    assert_eq!(Duration::from_nanos(999_999).as_millis(), 0);
    assert_eq!(Duration::from_nanos(1_000_000).as_millis(), 1);
    assert_eq!(Duration::from_nanos(20_999_999).as_millis(), 20);
    assert_eq!(Duration::from_nanos(u64::MAX).as_millis(), 18_446_744_073_709);
}

#[test]
fn longest_durations_are_representable() {
    assert_eq!(
        Duration::from_millis(18_446_744_073_709).as_nanos(),
        18_446_744_073_709_000_000
    );
    assert_eq!(Duration::from_secs(18_446_744_073).as_nanos(), 18_446_744_073_000_000_000);
}

#[test]
fn durations_and_instants_are_ordered_by_length() {
    assert!(ms(1) < ms(2));
    assert!(Duration::from_secs(1) > ms(999));
    assert!(at(1) < at(2));
    assert!(at(3).has_reached(at(3)));
    assert!(at(4).has_reached(at(3)));
    assert!(!at(2).has_reached(at(3)));
}

#[test]
fn duration_since_is_the_difference_or_nothing() {
    assert_eq!(at(250).duration_since(at(100)), ms(150));
    assert_eq!(at(100).duration_since(at(100)), Duration::zero());
    assert_eq!(at(100).duration_since(at(250)), Duration::zero());
    assert_eq!(Instant::origin().as_nanos(), 0);
}

#[test]
fn saturating_add_is_held_at_the_end_of_the_clock() {
    let last = Instant::from_nanos(u64::MAX);
    assert_eq!(at(100).saturating_add(ms(50)), at(150));
    assert_eq!(Instant::from_nanos(u64::MAX - 5).saturating_add(Duration::from_nanos(5)), last);
    assert_eq!(Instant::from_nanos(u64::MAX - 5).saturating_add(Duration::from_nanos(6)), last);
    assert_eq!(last.saturating_add(Duration::from_nanos(u64::MAX)), last);
}

#[test]
fn failure_time_is_the_start_plus_the_span() {
    assert_eq!(failure_time_after(at(1000), ms(300)), at(1300));
    assert_eq!(failure_time_after(at(1000), Duration::zero()), at(1000));
    assert_eq!(
        failure_time_after(at(1000), Duration::from_nanos(u64::MAX)),
        Instant::from_nanos(u64::MAX)
    );
}

#[test]
fn servers_come_before_clients() {
    assert!(NodeId::Node(0).precedes(&NodeId::Node(1)));
    assert!(!NodeId::Node(1).precedes(&NodeId::Node(0)));
    assert!(!NodeId::Node(1).precedes(&NodeId::Node(1)));
    assert!(NodeId::Node(9).precedes(&NodeId::Client(0)));
    assert!(!NodeId::Client(0).precedes(&NodeId::Node(9)));
    assert!(NodeId::Client(0).precedes(&NodeId::Client(1)));
    assert!(!NodeId::Client(1).precedes(&NodeId::Client(1)));
}

#[test]
fn order_of_ids_is_the_derived_order() {
    let ids = [NodeId::Node(0), NodeId::Node(3), NodeId::Client(0), NodeId::Client(2)];
    for a in ids {
        for b in ids {
            assert_eq!(a.precedes(&b), a < b);
        }
    }
}

#[test]
fn link_key_holds_the_smaller_id_first() {
    let a = NodeId::Node(1);
    let b = NodeId::Client(0);
    assert_eq!(link_key(a, b), (a, b));
    assert_eq!(link_key(b, a), (a, b));
    assert_eq!(link_key(NodeId::Node(2), NodeId::Node(1)), (NodeId::Node(1), NodeId::Node(2)));
    assert_eq!(link_key(b, b), (b, b));
}

#[test]
fn probabilities_lie_between_zero_and_one() {
    assert_eq!(Probability::new(1, 10), Some(Probability { numerator: 1, denominator: 10 }));
    assert_eq!(Probability::new(0, 1), Some(Probability::never()));
    assert_eq!(Probability::new(1, 1), Some(Probability::always()));
    assert_eq!(Probability::new(7, 7), Some(Probability { numerator: 7, denominator: 7 }));
    assert_eq!(Probability::new(2, 1), None);
    assert_eq!(Probability::new(0, 0), None);
    assert!(Probability { numerator: 3, denominator: 10 }.is_valid());
    assert!(!Probability { numerator: 11, denominator: 10 }.is_valid());
    assert!(!Probability { numerator: 0, denominator: 0 }.is_valid());
}

#[test]
fn rates_are_positive() {
    assert!(ExponentialRate { numerator: 5, denominator: 1 }.is_valid());
    assert!(ExponentialRate { numerator: 1, denominator: 3 }.is_valid());
    assert!(!ExponentialRate { numerator: 0, denominator: 1 }.is_valid());
    assert!(!ExponentialRate { numerator: 1, denominator: 0 }.is_valid());
}

#[test]
fn default_network_configuration() {
    let config = NetworkConfig::default();
    assert_eq!(config.min_message_latency, ms(0));
    assert_eq!(config.max_message_latency, ms(100));
    assert_eq!(config.latency_distribution, ExponentialRate { numerator: 5, denominator: 1 });
    assert_eq!(config.duplicate_probability, Probability { numerator: 1, denominator: 10 });
    assert_eq!(config.hold_probability, Probability { numerator: 3, denominator: 10 });
    assert_eq!(config.mean_time_between_link_failures, Some(ms(1000)));
    assert_eq!(config.mean_link_recovery_time, ms(300));
    assert_eq!(config.mean_time_between_partitions, Some(ms(4000)));
    assert_eq!(config.mean_partition_recovery_time, ms(1000));
    assert!(config.is_valid());
}

#[test]
fn default_configuration() {
    let config = Configuration::default();
    assert_eq!(config.tick_interval, ms(50));
    assert_eq!(config.max_sim_time, Duration::from_secs(10));
    assert_eq!(config.seed, 1);
    assert_eq!(config.check_invariants_frequency, 1);
    assert_eq!(config.failure_config.mean_time_between_failures, Some(ms(3000)));
    assert_eq!(config.failure_config.mean_time_to_recover, ms(2000));
    assert_eq!(config.network_config.max_message_latency, ms(100));
    assert!(config.is_valid());
    assert!(FailureConfiguration::default().is_valid());
}

#[test]
fn unusable_network_configurations() {
    let good = NetworkConfig::default();
    assert!(!NetworkConfig { min_message_latency: ms(101), ..good }.is_valid());
    assert!(NetworkConfig { min_message_latency: ms(100), ..good }.is_valid());
    assert!(!NetworkConfig {
        latency_distribution: ExponentialRate { numerator: 0, denominator: 1 },
        ..good
    }
    .is_valid());
    assert!(!NetworkConfig {
        duplicate_probability: Probability { numerator: 2, denominator: 1 },
        ..good
    }
    .is_valid());
    assert!(!NetworkConfig {
        hold_probability: Probability { numerator: 1, denominator: 0 },
        ..good
    }
    .is_valid());
    assert!(!NetworkConfig { mean_time_between_link_failures: Some(ms(0)), ..good }.is_valid());
    assert!(NetworkConfig { mean_time_between_link_failures: None, ..good }.is_valid());
    assert!(!NetworkConfig { mean_link_recovery_time: ms(0), ..good }.is_valid());
    assert!(!NetworkConfig { mean_time_between_partitions: Some(ms(0)), ..good }.is_valid());
    assert!(NetworkConfig { mean_time_between_partitions: None, ..good }.is_valid());
    assert!(!NetworkConfig { mean_partition_recovery_time: ms(0), ..good }.is_valid());
}

#[test]
fn unusable_configurations() {
    let good = Configuration::default();
    assert!(!Configuration { check_invariants_frequency: 0, ..good }.is_valid());
    assert!(!Configuration {
        network_config: NetworkConfig { mean_link_recovery_time: ms(0), ..good.network_config },
        ..good
    }
    .is_valid());
    let zero_mean =
        FailureConfiguration { mean_time_between_failures: Some(ms(0)), ..good.failure_config };
    assert!(!zero_mean.is_valid());
    assert!(!Configuration { failure_config: zero_mean, ..good }.is_valid());
    let no_crashes = FailureConfiguration { mean_time_between_failures: None, ..good.failure_config };
    assert!(Configuration { failure_config: no_crashes, ..good }.is_valid());
    // a tick interval of zero is allowed
    assert!(Configuration { tick_interval: ms(0), ..good }.is_valid());
}

#[test]
fn time_budget_must_fit_the_clock() {
    let config = Configuration::default();
    // ten seconds of budget, and 100 ms for the longest step
    assert!(config.does_fit(at(0)));
    assert!(config.does_fit(Instant::from_nanos(u64::MAX - 10_100_000_000)));
    assert!(!config.does_fit(Instant::from_nanos(u64::MAX - 10_099_999_999)));
    // where the tick interval is longer than the greatest latency, it is the longest step
    let slow = Configuration { tick_interval: ms(500), ..config };
    assert!(slow.does_fit(Instant::from_nanos(u64::MAX - 10_500_000_000)));
    assert!(!slow.does_fit(Instant::from_nanos(u64::MAX - 10_499_999_999)));
    assert!(!slow.does_fit(Instant::from_nanos(u64::MAX)));
}

#[test]
fn latency_mean_is_the_range_over_the_rate() {
    let config = NetworkConfig::default();
    assert_eq!(config.latency_mean(), ms(20));
    let shifted = NetworkConfig { min_message_latency: ms(10), ..config };
    assert_eq!(shifted.latency_mean(), ms(18));
    let slow = NetworkConfig {
        latency_distribution: ExponentialRate { numerator: 1, denominator: 4 },
        ..config
    };
    assert_eq!(slow.latency_mean(), ms(400));
    let thirds = NetworkConfig {
        latency_distribution: ExponentialRate { numerator: 3, denominator: 1 },
        ..config
    };
    assert_eq!(thirds.latency_mean(), Duration::from_nanos(33_333_333));
    let none = NetworkConfig { min_message_latency: ms(100), ..config };
    assert_eq!(none.latency_mean(), Duration::zero());
}

#[test]
fn latency_mean_is_held_at_the_longest_span() {
    let config = NetworkConfig {
        max_message_latency: Duration::from_nanos(u64::MAX),
        latency_distribution: ExponentialRate { numerator: 1, denominator: u32::MAX },
        ..NetworkConfig::default()
    };
    assert_eq!(config.latency_mean(), Duration::from_nanos(u64::MAX));
}

#[test]
fn delay_from_sample_is_the_minimum_plus_the_sample_held_at_the_maximum() {
    let config = NetworkConfig { min_message_latency: ms(10), ..NetworkConfig::default() };
    assert_eq!(config.delay_from_sample(Duration::zero()), ms(10));
    assert_eq!(config.delay_from_sample(Duration::from_nanos(1)), Duration::from_nanos(10_000_001));
    assert_eq!(
        config.delay_from_sample(Duration::from_nanos(1_500_000)),
        Duration::from_nanos(11_500_000)
    );
    assert_eq!(config.delay_from_sample(ms(89)), ms(99));
    assert_eq!(
        config.delay_from_sample(Duration::from_nanos(89_999_999)),
        Duration::from_nanos(99_999_999)
    );
    assert_eq!(config.delay_from_sample(ms(90)), ms(100));
    assert_eq!(config.delay_from_sample(Duration::from_nanos(90_000_001)), ms(100));
    assert_eq!(config.delay_from_sample(ms(91)), ms(100));
    assert_eq!(config.delay_from_sample(Duration::from_nanos(u64::MAX)), ms(100));
}

#[test]
fn queue_hands_out_events_by_time() {
    let mut queue: EventQueue<&str> = EventQueue::new();
    assert_eq!(queue.pop_first(), None);
    queue.insert(EventTime { time: at(30), offset: 1 }, "c");
    queue.insert(EventTime { time: at(10), offset: 2 }, "a");
    queue.insert(EventTime { time: at(20), offset: 3 }, "b");
    assert_eq!(queue.pop_first(), Some((EventTime { time: at(10), offset: 2 }, "a")));
    assert_eq!(queue.pop_first(), Some((EventTime { time: at(20), offset: 3 }, "b")));
    queue.insert(EventTime { time: at(5), offset: 4 }, "late");
    assert_eq!(queue.pop_first(), Some((EventTime { time: at(5), offset: 4 }, "late")));
    assert_eq!(queue.pop_first(), Some((EventTime { time: at(30), offset: 1 }, "c")));
    assert_eq!(queue.pop_first(), None);
    assert_eq!(queue.pop_first(), None);
}

#[test]
fn queue_breaks_ties_by_offset() {
    let mut queue: EventQueue<u32> = EventQueue::new();
    for offset in [5usize, 2, 9, 1, 7] {
        queue.insert(EventTime { time: at(10), offset }, offset as u32);
    }
    queue.insert(EventTime { time: at(9), offset: 100 }, 100);
    let mut order = Vec::new();
    while let Some((key, event)) = queue.pop_first() {
        assert_eq!(key.offset as u32, event);
        order.push(event);
    }
    assert_eq!(order, vec![100, 1, 2, 5, 7, 9]);
}

#[test]
fn queue_keeps_one_event_per_place() {
    let mut queue: EventQueue<&str> = EventQueue::new();
    let key = EventTime { time: at(10), offset: 1 };
    queue.insert(key, "first");
    queue.insert(EventTime { time: at(10), offset: 2 }, "other");
    queue.insert(key, "second");
    assert_eq!(queue.pop_first(), Some((key, "second")));
    assert_eq!(queue.pop_first(), Some((EventTime { time: at(10), offset: 2 }, "other")));
    assert_eq!(queue.pop_first(), None);
}

#[test]
fn event_times_are_ordered_by_time_and_then_offset() {
    let early = EventTime { time: at(1), offset: 9 };
    let late = EventTime { time: at(2), offset: 0 };
    let later = EventTime { time: at(2), offset: 1 };
    assert!(early.before(&late));
    assert!(late.before(&later));
    assert!(!later.before(&late));
    assert!(!late.before(&late));
    // the derived order is the same
    assert!(early < late && late < later);
}

#[test]
fn quorum_lets_fewer_than_half_be_out() {
    // five servers: two may be out
    assert!(quorum_allows_failure(5, 0));
    assert!(quorum_allows_failure(5, 1));
    assert!(!quorum_allows_failure(5, 2));
    assert!(!quorum_allows_failure(5, 5));
    // four servers: two may be out
    assert!(quorum_allows_failure(4, 1));
    assert!(!quorum_allows_failure(4, 2));
    // one server, or none, never crashes
    assert!(!quorum_allows_failure(1, 0));
    assert!(!quorum_allows_failure(0, 0));
    assert!(quorum_allows_failure(2, 0));
    assert!(!quorum_allows_failure(2, 1));
}

#[test]
fn sequential_ids_start_at_zero_and_have_no_gap() {
    let servers = vec![NodeId::Node(0), NodeId::Node(1), NodeId::Node(2)];
    assert!(are_sequential(&servers, false));
    assert!(!are_sequential(&servers, true));
    assert!(are_sequential(&vec![], false));
    assert!(are_sequential(&vec![], true));
    assert!(are_sequential(&vec![NodeId::Client(0), NodeId::Client(1)], true));
    assert!(!are_sequential(&vec![NodeId::Node(1)], false));
    assert!(!are_sequential(&vec![NodeId::Node(0), NodeId::Node(2)], false));
    assert!(!are_sequential(&vec![NodeId::Node(0), NodeId::Node(0)], false));
    assert!(!are_sequential(&vec![NodeId::Node(1), NodeId::Node(0)], false));
    assert!(!are_sequential(&vec![NodeId::Node(0), NodeId::Client(1)], false));
}

#[test]
fn validate_ids_names_the_first_fault() {
    let servers = vec![NodeId::Node(0), NodeId::Node(1)];
    let clients = vec![NodeId::Client(0)];
    assert_eq!(validate_ids(&servers, &clients), Ok(()));
    assert_eq!(validate_ids(&clients, &clients), Err(SetupError::NodeIdsNotSequential));
    assert_eq!(validate_ids(&servers, &servers), Err(SetupError::ClientIdsNotSequential));
    assert_eq!(validate_ids(&clients, &servers), Err(SetupError::NodeIdsNotSequential));
    assert_eq!(validate_ids(&vec![], &vec![]), Ok(()));
}

#[test]
fn all_ids_lists_servers_and_then_clients() {
    assert_eq!(
        all_ids(3, 2),
        vec![
            NodeId::Node(0),
            NodeId::Node(1),
            NodeId::Node(2),
            NodeId::Client(0),
            NodeId::Client(1)
        ]
    );
    assert_eq!(all_ids(0, 1), vec![NodeId::Client(0)]);
    assert_eq!(all_ids(1, 0), vec![NodeId::Node(0)]);
    assert_eq!(all_ids(0, 0), vec![]);
}

#[derive(Debug, Clone, PartialEq, Eq)]
struct Note(u8);

impl ProtocolMessage for Note {
    fn source(&self) -> NodeId {
        NodeId::Client(0)
    }

    fn destination(&self) -> NodeId {
        NodeId::Node(0)
    }
}

#[test]
fn simulation_message_keeps_message_and_number() {
    let sent = SimulationMessage::new(Note(3), 41);
    assert_eq!(sent.message, Note(3));
    assert_eq!(sent.id, 41);
}
