use detsim::networking::partition::{
    contains_id, head_of_order, sample_next_partition, sample_random_subset, PartitionTransition,
};
use detsim::{
    Duration, ExponentialSampler, Instant, NetworkConfig, NetworkPartition, NodeId,
    PartitionState, SimRng,
};
use rand_chacha::ChaCha8Rng;
use std::cell::RefCell;
use std::collections::HashSet;
use std::rc::Rc;

/// Hands out the spans of a script in their order and notes the means that
/// it was asked for. Once the script is used up it repeats the last span.
struct Scripted {
    spans: Vec<Duration>,
    asked: Rc<RefCell<Vec<Duration>>>,
}

impl ExponentialSampler for Scripted {
    fn sample(&mut self, mean: Duration, _rng: &mut ChaCha8Rng) -> Duration {
        let at = self.asked.borrow().len().min(self.spans.len() - 1);
        self.asked.borrow_mut().push(mean);
        self.spans[at]
    }
}

fn scripted(seed: u64, millis: &[u64]) -> (SimRng<Scripted>, Rc<RefCell<Vec<Duration>>>) {
    let asked = Rc::new(RefCell::new(Vec::new()));
    let spans = millis.iter().map(|ms| Duration::from_millis(*ms)).collect();
    (SimRng::new(seed, Scripted { spans, asked: asked.clone() }), asked)
}

fn ms(millis: u64) -> Duration {
    Duration::from_millis(millis)
}

fn at(millis: u64) -> Instant {
    Instant::from_nanos(millis * 1_000_000)
}

fn five_nodes() -> Vec<NodeId> {
    vec![NodeId::Node(0), NodeId::Node(1), NodeId::Node(2), NodeId::Client(0), NodeId::Client(1)]
}

#[test]
fn whole_network_cuts_nothing() {
    let state = PartitionState::Normal { expected_partition: Some(at(5)) };
    assert!(!state.is_partitioned(&NodeId::Node(0), &NodeId::Client(0)));
    assert!(!state.is_partitioned(&NodeId::Node(0), &NodeId::Node(0)));
}

#[test]
fn split_network_cuts_across_the_sides_only() {
    let state = PartitionState::Partition {
        partitioned_nodes: vec![NodeId::Node(0), NodeId::Client(1)],
        expected_recovery: at(5),
    };
    // exactly one endpoint on the cut-off side
    assert!(state.is_partitioned(&NodeId::Node(0), &NodeId::Node(1)));
    assert!(state.is_partitioned(&NodeId::Node(1), &NodeId::Node(0)));
    assert!(state.is_partitioned(&NodeId::Client(0), &NodeId::Client(1)));
    // both on the cut-off side
    assert!(!state.is_partitioned(&NodeId::Node(0), &NodeId::Client(1)));
    assert!(!state.is_partitioned(&NodeId::Node(0), &NodeId::Node(0)));
    // both on the other side
    assert!(!state.is_partitioned(&NodeId::Node(1), &NodeId::Client(0)));
    // the tag matters
    assert!(state.is_partitioned(&NodeId::Node(0), &NodeId::Client(0)));
}

#[test]
fn empty_side_cuts_nothing() {
    let state = PartitionState::Partition { partitioned_nodes: vec![], expected_recovery: at(5) };
    assert!(!state.is_partitioned(&NodeId::Node(0), &NodeId::Client(0)));
}

#[test]
fn contains_id_finds_what_is_there() {
    let ids = five_nodes();
    assert!(contains_id(&ids, &NodeId::Node(2)));
    assert!(contains_id(&ids, &NodeId::Client(1)));
    assert!(!contains_id(&ids, &NodeId::Client(2)));
    assert!(!contains_id(&vec![], &NodeId::Node(0)));
}

#[test]
fn partition_pending_tells_what_is_due() {
    let whole = PartitionState::Normal { expected_partition: Some(at(10)) };
    assert_eq!(whole.pending(at(9)), PartitionTransition::Stay);
    assert_eq!(whole.pending(at(10)), PartitionTransition::Split);
    let calm = PartitionState::Normal { expected_partition: None };
    assert_eq!(calm.pending(at(u64::MAX / 1_000_000)), PartitionTransition::Stay);
    let split =
        PartitionState::Partition { partitioned_nodes: vec![], expected_recovery: at(10) };
    assert_eq!(split.pending(at(9)), PartitionTransition::Stay);
    assert_eq!(split.pending(at(10)), PartitionTransition::Heal);
}

#[test]
fn next_partition_is_drawn_where_the_network_splits() {
    let (mut rng, asked) = scripted(1, &[250]);
    let config = NetworkConfig::default();
    assert_eq!(sample_next_partition(at(100), &config, &mut rng), Some(at(350)));
    let calm = NetworkConfig { mean_time_between_partitions: None, ..config };
    assert_eq!(sample_next_partition(at(100), &calm, &mut rng), None);
    assert_eq!(*asked.borrow(), vec![ms(4000)]);
}

#[test]
fn new_partition_draws_the_first_split() {
    let (mut rng, asked) = scripted(1, &[2500]);
    let partition = NetworkPartition::new(at(100), five_nodes(), NetworkConfig::default(), &mut rng);
    match partition.state() {
        PartitionState::Normal { expected_partition } => {
            assert_eq!(*expected_partition, Some(at(2600)))
        }
        other => panic!("{other:?}"),
    }
    assert_eq!(*asked.borrow(), vec![ms(4000)]);
}

#[test]
fn new_partition_without_splits_stays_whole() {
    let config = NetworkConfig { mean_time_between_partitions: None, ..NetworkConfig::default() };
    let (mut rng, asked) = scripted(1, &[2500]);
    let mut partition = NetworkPartition::new(at(100), five_nodes(), config, &mut rng);
    assert!(!partition.is_partitioned(
        at(1_000_000),
        &NodeId::Node(0),
        &NodeId::Client(0),
        &mut rng
    ));
    match partition.state() {
        PartitionState::Normal { expected_partition } => assert_eq!(*expected_partition, None),
        other => panic!("{other:?}"),
    }
    assert!(asked.borrow().is_empty());
}

#[test]
fn network_splits_and_heals_on_time() {
    // split 2500 ms after the start, recovery 800 ms after the split is
    // noticed, next split 4100 ms after the recovery is noticed
    let (mut rng, asked) = scripted(1, &[2500, 800, 4100]);
    let nodes = five_nodes();
    let mut partition = NetworkPartition::new(at(0), nodes.clone(), NetworkConfig::default(), &mut rng);

    partition.check_partition_state_transition(at(2499), &mut rng);
    assert!(matches!(partition.state(), PartitionState::Normal { .. }));

    partition.check_partition_state_transition(at(2600), &mut rng);
    match partition.state() {
        PartitionState::Partition { partitioned_nodes, expected_recovery } => {
            assert_eq!(*expected_recovery, at(3400));
            assert!(!partitioned_nodes.is_empty());
            assert!(partitioned_nodes.len() <= nodes.len());
            let distinct: HashSet<&NodeId> = partitioned_nodes.iter().collect();
            assert_eq!(distinct.len(), partitioned_nodes.len());
            assert!(partitioned_nodes.iter().all(|id| nodes.contains(id)));
        }
        other => panic!("{other:?}"),
    }

    partition.check_partition_state_transition(at(3399), &mut rng);
    assert!(matches!(partition.state(), PartitionState::Partition { .. }));

    partition.check_partition_state_transition(at(3400), &mut rng);
    match partition.state() {
        PartitionState::Normal { expected_partition } => {
            assert_eq!(*expected_partition, Some(at(7500)))
        }
        other => panic!("{other:?}"),
    }
    // means: time between partitions, recovery time, time between partitions
    assert_eq!(*asked.borrow(), vec![ms(4000), ms(1000), ms(4000)]);
}

#[test]
fn is_partitioned_answers_for_the_state_after_catching_up() {
    let (mut rng, _) = scripted(3, &[10, 1000, 4000]);
    let nodes = vec![NodeId::Node(0), NodeId::Node(1)];
    let mut partition = NetworkPartition::new(at(0), nodes, NetworkConfig::default(), &mut rng);
    let cut = partition.is_partitioned(at(10), &NodeId::Node(0), &NodeId::Node(1), &mut rng);
    match partition.state() {
        PartitionState::Partition { partitioned_nodes, .. } => {
            let zero = partitioned_nodes.contains(&NodeId::Node(0));
            let one = partitioned_nodes.contains(&NodeId::Node(1));
            assert_eq!(cut, zero != one);
        }
        other => panic!("{other:?}"),
    }
    // once healed, nothing is cut
    assert!(!partition.is_partitioned(at(1010), &NodeId::Node(0), &NodeId::Node(1), &mut rng));
}

#[test]
fn network_without_nodes_splits_into_nothing() {
    let (mut rng, _) = scripted(1, &[10, 1000]);
    let mut partition = NetworkPartition::new(at(0), vec![], NetworkConfig::default(), &mut rng);
    partition.check_partition_state_transition(at(10), &mut rng);
    match partition.state() {
        PartitionState::Partition { partitioned_nodes, expected_recovery } => {
            assert!(partitioned_nodes.is_empty());
            assert_eq!(*expected_recovery, at(1010));
        }
        other => panic!("{other:?}"),
    }
}

#[test]
fn head_of_order_picks_the_first_positions() {
    let nodes = five_nodes();
    let order = [3, 0, 4, 1, 2];
    assert_eq!(head_of_order(&nodes, &order, 0), vec![]);
    assert_eq!(head_of_order(&nodes, &order, 1), vec![NodeId::Client(0)]);
    assert_eq!(
        head_of_order(&nodes, &order, 3),
        vec![NodeId::Client(0), NodeId::Node(0), NodeId::Client(1)]
    );
    assert_eq!(
        head_of_order(&nodes, &order, 5),
        vec![
            NodeId::Client(0),
            NodeId::Node(0),
            NodeId::Client(1),
            NodeId::Node(1),
            NodeId::Node(2)
        ]
    );
}

#[test]
fn random_subset_is_made_of_distinct_nodes() {
    let nodes = five_nodes();
    let mut sizes = HashSet::new();
    for seed in 0..200u64 {
        let (mut rng, _) = scripted(seed, &[1]);
        let subset = sample_random_subset(&nodes, 1, &mut rng);
        assert!(1 <= subset.len() && subset.len() <= nodes.len());
        let distinct: HashSet<&NodeId> = subset.iter().collect();
        assert_eq!(distinct.len(), subset.len());
        assert!(subset.iter().all(|id| nodes.contains(id)));
        sizes.insert(subset.len());
    }
    // every size from one to all is drawn
    assert_eq!(sizes, HashSet::from([1, 2, 3, 4, 5]));
}

#[test]
fn random_subset_of_full_size_holds_every_node() {
    let nodes = five_nodes();
    let mut orders = HashSet::new();
    for seed in 0..50u64 {
        let (mut rng, _) = scripted(seed, &[1]);
        let subset = sample_random_subset(&nodes, nodes.len(), &mut rng);
        assert_eq!(subset.len(), 5);
        let distinct: HashSet<NodeId> = subset.iter().copied().collect();
        assert_eq!(distinct, nodes.iter().copied().collect());
        orders.insert(subset);
    }
    // the order is shuffled
    assert!(orders.len() > 1);
}

#[test]
fn random_subset_reaches_every_node() {
    let nodes = five_nodes();
    let mut picked = HashSet::new();
    for seed in 0..200u64 {
        let (mut rng, _) = scripted(seed, &[1]);
        for id in sample_random_subset(&nodes, 1, &mut rng) {
            picked.insert(id);
        }
    }
    assert_eq!(picked, nodes.iter().copied().collect());
}

#[test]
fn random_subset_may_be_empty_only_if_allowed() {
    let (mut rng, _) = scripted(1, &[1]);
    assert!(sample_random_subset(&[], 0, &mut rng).is_empty());
    let one = vec![NodeId::Node(0)];
    assert_eq!(sample_random_subset(&one, 1, &mut rng), one);
}

#[test]
fn random_subset_is_the_same_for_the_same_seed() {
    let nodes = five_nodes();
    let (mut first, _) = scripted(11, &[1]);
    let (mut second, _) = scripted(11, &[1]);
    for _ in 0..20 {
        assert_eq!(
            sample_random_subset(&nodes, 1, &mut first),
            sample_random_subset(&nodes, 1, &mut second)
        );
    }
}
