//! The partition of the network.
//!
//! From time to time the nodes fall into two sides, and no message crosses
//! from one side to the other until the partition heals. Like a link, the
//! partition catches up with the clock only when it is asked.

use vstd::prelude::*;
use crate::networking::config::NetworkConfig;
use crate::node_id::NodeId;
use crate::rng::{Draw, ExponentialSampler, SimRng};
use crate::time::Instant;
use crate::util::{sample_failure_time, spec_failure_time};

verus! {

#[derive(Debug)]
pub enum PartitionState {
    /// All nodes reach each other. The network splits at
    /// `expected_partition`, if ever.
    Normal { expected_partition: Option<Instant> },
    /// The nodes in `partitioned_nodes` are cut off from all others until
    /// `expected_recovery`.
    Partition { partitioned_nodes: Vec<NodeId>, expected_recovery: Instant },
}

/// The state of the partition as contracts see it.
pub enum PartitionStateView {
    Normal { expected_partition: Option<Instant> },
    Partition { side_a: Set<NodeId>, expected_recovery: Instant },
}

impl View for PartitionState {
    type V = PartitionStateView;

    open spec fn view(&self) -> PartitionStateView {
        match *self {
            PartitionState::Normal { expected_partition } => PartitionStateView::Normal {
                expected_partition,
            },
            PartitionState::Partition {
                partitioned_nodes,
                expected_recovery,
            } => PartitionStateView::Partition {
                side_a: partitioned_nodes@.to_set(),
                expected_recovery,
            },
        }
    }
}

/// What the partition has to do to catch up with the clock.
#[derive(Clone, Copy, Debug, PartialEq, Eq, Structural)]
pub enum PartitionTransition {
    /// Nothing: no change of state is due.
    Stay,
    /// The network is whole and its split is due.
    Split,
    /// The network is split and its recovery is due.
    Heal,
}

impl PartitionStateView {
    /// Whether a message between `from` and `to` is cut: the network is
    /// split and exactly one of the two is on the cut-off side.
    pub open spec fn cuts(self, from: NodeId, to: NodeId) -> bool {
        match self {
            PartitionStateView::Partition { side_a, .. } => side_a.contains(from)
                != side_a.contains(to),
            PartitionStateView::Normal { .. } => false,
        }
    }

    /// The change of state that is due at `now`.
    pub open spec fn pending(self, now: Instant) -> PartitionTransition {
        match self {
            PartitionStateView::Normal { expected_partition: Some(at) } => if now.nanos
                >= at.nanos {
                PartitionTransition::Split
            } else {
                PartitionTransition::Stay
            },
            PartitionStateView::Normal { expected_partition: None } => PartitionTransition::Stay,
            PartitionStateView::Partition { expected_recovery, .. } => if now.nanos
                >= expected_recovery.nanos {
                PartitionTransition::Heal
            } else {
                PartitionTransition::Stay
            },
        }
    }
}

/// The positions of a network of `node_count` nodes, in their order.
pub open spec fn positions(node_count: nat) -> Seq<usize> {
    Seq::new(node_count, |i: int| i as usize)
}

/// Whether `order` lists every position of a network of `node_count` nodes
/// exactly once.
pub open spec fn is_order(order: Seq<usize>, node_count: nat) -> bool {
    &&& order.len() == node_count
    &&& order.no_duplicates()
    &&& forall|i: int| 0 <= i < order.len() ==> (#[trigger] order[i]) < node_count
}

/// The nodes at the first `count` positions that `order` lists.
pub open spec fn spec_head_of_order(nodes: Seq<NodeId>, order: Seq<usize>, count: nat) -> Seq<
    NodeId,
> {
    Seq::new(count, |i: int| nodes[order[i] as int])
}

/// Whether `draws` are the draws by which a subset of at least `min_nodes`
/// of `node_count` nodes is chosen: a number between `min_nodes` and
/// `node_count`, and a shuffle of the positions of all nodes.
pub open spec fn subset_draws(node_count: nat, min_nodes: nat, draws: Seq<Draw>) -> bool {
    &&& draws.len() == 2
    &&& draws[0] is Number
    &&& draws[0]->low == min_nodes
    &&& draws[0]->high == node_count
    &&& draws[0].possible()
    &&& draws[1] is Shuffle
    &&& draws[1]->before == positions(node_count)
    &&& draws[1].possible()
}

/// The subset of `nodes` that `draws` choose: as many nodes as the number
/// drawn, from the head of the shuffled positions.
pub open spec fn subset_drawn(nodes: Seq<NodeId>, draws: Seq<Draw>) -> Seq<NodeId> {
    spec_head_of_order(nodes, draws[1]->after, draws[0]->number as nat)
}

/// The number of draws by which the network becomes whole.
pub open spec fn partition_heal_draw_count(config: NetworkConfig) -> nat {
    if config.mean_time_between_partitions.is_some() {
        1
    } else {
        0
    }
}

/// Whether `draws` are the draws by which the network becomes whole: a span
/// with the mean time between partitions, if the configuration lets the
/// network split.
pub open spec fn partition_heal_draws(config: NetworkConfig, draws: Seq<Draw>) -> bool {
    &&& draws.len() == partition_heal_draw_count(config)
    &&& config.mean_time_between_partitions matches Some(mean_time) ==> draws[0] is Span
        && draws[0]->mean == mean_time
}

/// The state of the partition of a network that has become whole at `now`
/// by `draws`: whole, with the next split as long after `now` as the span
/// drawn, or with none if the configuration lets the network not split.
pub open spec fn partition_heal_state(
    now: Instant,
    config: NetworkConfig,
    draws: Seq<Draw>,
) -> PartitionStateView {
    PartitionStateView::Normal {
        expected_partition: if config.mean_time_between_partitions.is_some() {
            Some(spec_failure_time(now, draws[0]->span))
        } else {
            None
        },
    }
}

/// The number of draws by which a network of `node_count` nodes splits.
pub open spec fn partition_split_draw_count(node_count: nat) -> nat {
    if node_count == 0 {
        1
    } else {
        3
    }
}

/// Whether `draws` are the draws by which the network of `nodes` splits:
/// those that choose a subset of at least one node, where there is any
/// node, and then a span with the mean partition recovery time.
pub open spec fn partition_split_draws(
    config: NetworkConfig,
    nodes: Seq<NodeId>,
    draws: Seq<Draw>,
) -> bool {
    let chosen = (partition_split_draw_count(nodes.len()) - 1) as int;
    &&& draws.len() == chosen + 1
    &&& nodes.len() > 0 ==> subset_draws(nodes.len(), 1, draws.take(chosen))
    &&& draws[chosen] is Span
    &&& draws[chosen]->mean == config.mean_partition_recovery_time
}

/// The state of the partition of the network of `nodes` that has split at
/// `now` by `draws`: the subset drawn is cut off, or nothing in a network
/// without nodes, until as long after `now` as the span drawn.
pub open spec fn partition_split_state(
    now: Instant,
    nodes: Seq<NodeId>,
    draws: Seq<Draw>,
) -> PartitionStateView {
    let chosen = (partition_split_draw_count(nodes.len()) - 1) as int;
    PartitionStateView::Partition {
        side_a: if nodes.len() == 0 {
            Set::empty()
        } else {
            subset_drawn(nodes, draws.take(chosen)).to_set()
        },
        expected_recovery: spec_failure_time(now, draws[chosen]->span),
    }
}

/// The number of draws by which the partition in the state `pre` of a
/// network of `node_count` nodes catches up with the clock at `now`.
pub open spec fn partition_transition_draw_count(
    pre: PartitionStateView,
    now: Instant,
    config: NetworkConfig,
    node_count: nat,
) -> nat {
    match pre.pending(now) {
        PartitionTransition::Stay => 0,
        PartitionTransition::Split => partition_split_draw_count(node_count),
        PartitionTransition::Heal => partition_heal_draw_count(config),
    }
}

/// Whether `draws` are the draws by which the partition in the state `pre`
/// of the network of `nodes` catches up with the clock at `now`: none if no
/// change is due, those of a split if the split is due, and those of
/// becoming whole if the recovery is due.
pub open spec fn partition_transition_draws(
    pre: PartitionStateView,
    now: Instant,
    config: NetworkConfig,
    nodes: Seq<NodeId>,
    draws: Seq<Draw>,
) -> bool {
    match pre.pending(now) {
        PartitionTransition::Stay => draws.len() == 0,
        PartitionTransition::Split => partition_split_draws(config, nodes, draws),
        PartitionTransition::Heal => partition_heal_draws(config, draws),
    }
}

/// The state of the partition of the network of `nodes` that was in the
/// state `pre` and has caught up with the clock at `now` by `draws`.
pub open spec fn partition_after_transition(
    pre: PartitionStateView,
    now: Instant,
    config: NetworkConfig,
    nodes: Seq<NodeId>,
    draws: Seq<Draw>,
) -> PartitionStateView {
    match pre.pending(now) {
        PartitionTransition::Stay => pre,
        PartitionTransition::Split => partition_split_state(now, nodes, draws),
        PartitionTransition::Heal => partition_heal_state(now, config, draws),
    }
}

/// Whether `id` occurs in `ids`.
pub fn contains_id(ids: &Vec<NodeId>, id: &NodeId) -> (found: bool)
    ensures
        found == ids@.contains(*id),
{
    let mut i: usize = 0;
    while i < ids.len()
        invariant
            i <= ids.len(),
            forall|j: int| 0 <= j < i ==> ids@[j] != *id,
        decreases ids.len() - i,
    {
        if ids[i] == *id {
            return true;
        }
        i += 1;
    }
    false
}

impl PartitionState {
    /// Whether a message between `from` and `to` is cut in this state.
    pub fn is_partitioned(&self, from: &NodeId, to: &NodeId) -> (cut: bool)
        ensures
            cut == self@.cuts(*from, *to),
    {
        match self {
            PartitionState::Partition { partitioned_nodes, .. } => {
                contains_id(partitioned_nodes, from) != contains_id(partitioned_nodes, to)
            },
            _ => false,
        }
    }

    /// Tells which change of state is due at `now`.
    pub fn pending(&self, now: Instant) -> (due: PartitionTransition)
        ensures
            due == self@.pending(now),
    {
        match self {
            PartitionState::Normal { expected_partition: Some(at) } => {
                if now.has_reached(*at) {
                    PartitionTransition::Split
                } else {
                    PartitionTransition::Stay
                }
            },
            PartitionState::Normal { expected_partition: None } => PartitionTransition::Stay,
            PartitionState::Partition { expected_recovery, .. } => {
                if now.has_reached(*expected_recovery) {
                    PartitionTransition::Heal
                } else {
                    PartitionTransition::Stay
                }
            },
        }
    }
}

pub struct NetworkPartition {
    partition_state: PartitionState,
    nodes: Vec<NodeId>,
    config: NetworkConfig,
    simulation_start: Instant,
}

/// The partition of a network as contracts see it.
pub struct NetworkPartitionView {
    pub state: PartitionStateView,
    pub nodes: Seq<NodeId>,
    pub config: NetworkConfig,
    pub simulation_start: Instant,
}

impl View for NetworkPartition {
    type V = NetworkPartitionView;

    closed spec fn view(&self) -> NetworkPartitionView {
        NetworkPartitionView {
            state: self.partition_state@,
            nodes: self.nodes@,
            config: self.config,
            simulation_start: self.simulation_start,
        }
    }
}

impl NetworkPartition {
    /// The partition of a network of `nodes` that is whole at `now`, with
    /// the first split drawn if the configuration lets the network split.
    pub fn new<S: ExponentialSampler>(
        now: Instant,
        nodes: Vec<NodeId>,
        config: NetworkConfig,
        rand: &mut SimRng<S>,
    ) -> (partition: NetworkPartition)
        ensures
            final(rand).continues(old(rand).drawn()),
            partition_heal_draws(config, final(rand).drawn_since(old(rand).drawn())),
            partition@.state == partition_heal_state(
                now,
                config,
                final(rand).drawn_since(old(rand).drawn()),
            ),
            partition@.nodes == nodes@,
            partition@.config == config,
            partition@.simulation_start == now,
    {
        let expected_partition = sample_next_partition(now, &config, rand);
        NetworkPartition {
            partition_state: PartitionState::Normal { expected_partition },
            nodes,
            config,
            simulation_start: now,
        }
    }

    /// The state of the partition as it is, not caught up with the clock.
    pub fn state(&self) -> (state: &PartitionState)
        ensures
            state@ == self@.state,
    {
        &self.partition_state
    }

    /// Lets the partition catch up with the clock: the network splits if its
    /// split is due and becomes whole if its recovery is due.
    pub fn check_partition_state_transition<S: ExponentialSampler>(
        &mut self,
        now: Instant,
        rand: &mut SimRng<S>,
    )
        ensures
            final(rand).continues(old(rand).drawn()),
            partition_transition_draws(
                old(self)@.state,
                now,
                old(self)@.config,
                old(self)@.nodes,
                final(rand).drawn_since(old(rand).drawn()),
            ),
            final(self)@ == (NetworkPartitionView {
                state: partition_after_transition(
                    old(self)@.state,
                    now,
                    old(self)@.config,
                    old(self)@.nodes,
                    final(rand).drawn_since(old(rand).drawn()),
                ),
                ..old(self)@
            }),
    {
        match self.partition_state.pending(now) {
            PartitionTransition::Stay => {
                assert(rand.drawn_since(old(rand).drawn()) =~= Seq::<Draw>::empty());
            },
            PartitionTransition::Split => {
                let partitioned_nodes = if self.nodes.len() == 0 {
                    Vec::new()
                } else {
                    sample_random_subset(self.nodes.as_slice(), 1, rand)
                };
                let ghost chosen = rand.drawn();
                let expected_recovery = sample_failure_time(
                    now,
                    self.config.mean_partition_recovery_time,
                    rand,
                );
                proof {
                    let draws = rand.drawn_since(old(rand).drawn());
                    let count = (partition_split_draw_count(self.nodes@.len()) - 1) as int;
                    assert(draws.take(count) =~= chosen.skip(old(rand).drawn().len() as int));
                    assert(draws[count] == rand.drawn().last());
                    if self.nodes.len() == 0 {
                        assert(partitioned_nodes@.to_set() =~= Set::<NodeId>::empty());
                    }
                    assert forall|i: int| 0 <= i < draws.len() implies (
                    #[trigger] draws[i]).possible() by {
                        if i < count {
                            assert(draws[i] == chosen.skip(old(rand).drawn().len() as int)[i]);
                        }
                    }
                }
                self.partition_state =
                PartitionState::Partition { partitioned_nodes, expected_recovery };
            },
            PartitionTransition::Heal => {
                let expected_partition = sample_next_partition(now, &self.config, rand);
                self.partition_state = PartitionState::Normal { expected_partition };
            },
        }
    }

    /// Whether a message between `from` and `to` is cut at `now`, once the
    /// partition has caught up with the clock.
    pub fn is_partitioned<S: ExponentialSampler>(
        &mut self,
        now: Instant,
        from: &NodeId,
        to: &NodeId,
        rand: &mut SimRng<S>,
    ) -> (cut: bool)
        ensures
            final(rand).continues(old(rand).drawn()),
            partition_transition_draws(
                old(self)@.state,
                now,
                old(self)@.config,
                old(self)@.nodes,
                final(rand).drawn_since(old(rand).drawn()),
            ),
            final(self)@ == (NetworkPartitionView {
                state: partition_after_transition(
                    old(self)@.state,
                    now,
                    old(self)@.config,
                    old(self)@.nodes,
                    final(rand).drawn_since(old(rand).drawn()),
                ),
                ..old(self)@
            }),
            cut == final(self)@.state.cuts(*from, *to),
    {
        self.check_partition_state_transition(now, rand);
        self.partition_state.is_partitioned(from, to)
    }
}

/// Draws the instant of the next split of a network that is whole at
/// `now`, if the configuration lets the network split.
pub fn sample_next_partition<S: ExponentialSampler>(
    now: Instant,
    config: &NetworkConfig,
    rand: &mut SimRng<S>,
) -> (expected_partition: Option<Instant>)
    ensures
        final(rand).continues(old(rand).drawn()),
        partition_heal_draws(*config, final(rand).drawn_since(old(rand).drawn())),
        (PartitionStateView::Normal { expected_partition }) == partition_heal_state(
            now,
            *config,
            final(rand).drawn_since(old(rand).drawn()),
        ),
{
    match config.mean_time_between_partitions {
        Some(mtbp) => {
            let at = sample_failure_time(now, mtbp, rand);
            assert(rand.drawn_since(old(rand).drawn()) =~= seq![rand.drawn().last()]);
            Some(at)
        },
        None => {
            assert(rand.drawn_since(old(rand).drawn()) =~= Seq::<Draw>::empty());
            None
        },
    }
}

/// A shuffle of the positions of a network lists every position exactly
/// once.
pub proof fn lemma_shuffle_is_order(node_count: nat, shuffled: Seq<usize>)
    requires
        node_count <= usize::MAX,
        shuffled.to_multiset() == positions(node_count).to_multiset(),
    ensures
        is_order(shuffled, node_count),
{
    let in_order = positions(node_count);
    assert(in_order.no_duplicates());
    in_order.lemma_multiset_has_no_duplicates();
    shuffled.lemma_multiset_has_no_duplicates_conv();
    in_order.to_multiset_ensures();
    shuffled.to_multiset_ensures();
    assert forall|i: int| 0 <= i < shuffled.len() implies (#[trigger] shuffled[i])
        < node_count by {
        let picked = shuffled[i];
        assert(shuffled.contains(picked));
        assert(shuffled.to_multiset().count(picked) > 0);
        assert(in_order.to_multiset().count(picked) > 0);
        assert(in_order.contains(picked));
    }
}

/// The subset that is drawn from the nodes of a network holds nodes of the
/// network only, at least as many as asked for and no node twice over its
/// position.
pub proof fn lemma_subset_drawn(nodes: Seq<NodeId>, min_nodes: nat, draws: Seq<Draw>)
    requires
        nodes.len() <= usize::MAX,
        subset_draws(nodes.len(), min_nodes, draws),
    ensures
        is_order(draws[1]->after, nodes.len()),
        min_nodes <= subset_drawn(nodes, draws).len() <= nodes.len(),
        subset_drawn(nodes, draws).to_set().subset_of(nodes.to_set()),
        subset_drawn(nodes, draws).to_set().finite(),
        min_nodes > 0 ==> exists|id: NodeId| subset_drawn(nodes, draws).to_set().contains(id),
{
    let order = draws[1]->after;
    lemma_shuffle_is_order(nodes.len(), order);
    let picked = subset_drawn(nodes, draws);
    assert forall|id: NodeId| picked.to_set().contains(id) implies nodes.to_set().contains(
        id,
    ) by {
        let i = choose|i: int| 0 <= i < picked.len() && picked[i] == id;
        assert(nodes[order[i] as int] == id);
    }
    vstd::seq_lib::seq_to_set_is_finite(picked);
    if min_nodes > 0 {
        assert(picked.to_set().contains(picked[0]));
    }
}

/// Picks the nodes at the first `count` positions that `order` lists.
pub fn head_of_order(nodes: &[NodeId], order: &[usize], count: usize) -> (picked: Vec<NodeId>)
    requires
        count <= order@.len(),
        forall|i: int| 0 <= i < count ==> (#[trigger] order@[i]) < nodes@.len(),
    ensures
        picked@ == spec_head_of_order(nodes@, order@, count as nat),
{
    let mut picked: Vec<NodeId> = Vec::new();
    let mut i: usize = 0;
    while i < count
        invariant
            i <= count <= order@.len(),
            forall|j: int| 0 <= j < count ==> (#[trigger] order@[j]) < nodes@.len(),
            picked@ == spec_head_of_order(nodes@, order@, i as nat),
        decreases count - i,
    {
        let idx = order[i];
        picked.push(nodes[idx]);
        assert(picked@ =~= spec_head_of_order(nodes@, order@, (i + 1) as nat));
        i += 1;
    }
    picked
}

/// Lists the positions of a network of `node_count` nodes, in their order.
fn positions_below(node_count: usize) -> (listed: Vec<usize>)
    ensures
        listed@ == positions(node_count as nat),
{
    let mut listed: Vec<usize> = Vec::new();
    let mut i: usize = 0;
    while i < node_count
        invariant
            i <= node_count,
            listed@ == positions(i as nat),
        decreases node_count - i,
    {
        listed.push(i);
        assert(listed@ =~= positions((i + 1) as nat));
        i += 1;
    }
    listed
}

/// Draws a random subset of `nodes`: first its size, between `min_nodes` and
/// the number of nodes, then that many nodes, as the head of a shuffle of
/// all of them.
pub fn sample_random_subset<S: ExponentialSampler>(
    nodes: &[NodeId],
    min_nodes: usize,
    rng: &mut SimRng<S>,
) -> (partitioned: Vec<NodeId>)
    requires
        min_nodes <= nodes.len(),
    ensures
        final(rng).continues(old(rng).drawn()),
        subset_draws(nodes@.len(), min_nodes as nat, final(rng).drawn_since(old(rng).drawn())),
        partitioned@ == subset_drawn(nodes@, final(rng).drawn_since(old(rng).drawn())),
{
    let node_count = rng.gen_range(min_nodes, nodes.len());
    let ghost counted = rng.drawn();
    let mut node_indices = positions_below(nodes.len());
    rng.shuffle(&mut node_indices);
    proof {
        lemma_shuffle_is_order(nodes@.len(), node_indices@);
        assert(rng.drawn_since(old(rng).drawn()) =~= seq![counted.last(), rng.drawn().last()]);
    }
    head_of_order(nodes, node_indices.as_slice(), node_count)
}

} // verus!
