//! The engine: the event loop of a simulation.
//!
//! The simulator takes the earliest event from its queue, moves the clock
//! there, hands the event to the servers and clients concerned, and passes
//! what they send through the network, which turns each message into
//! deliveries at later instants. A tick that renews itself keeps the clock
//! going.

use vstd::prelude::*;
use crate::config::Configuration;
use crate::model::{
    reported_client_id, reported_destination, reported_finished, reported_node_id,
    reported_source, reported_unfinished, DeterministicClient, DeterministicNode, InvariantChecker,
    ProtocolMessage,
};
use crate::networking::link::LinkView;
use crate::networking::network::{
    network_send, network_sends, DeliverMessage, Network, NetworkView,
};
use crate::networking::partition::{
    partition_heal_draw_count, partition_heal_draws, partition_heal_state,
};
use crate::config::FailureConfiguration;
use crate::node::{
    node_after_transition, node_handles, NodeTransition, node_start_draws, node_start_state,
    node_transition_draw_count, node_transition_draws, Node,
};
use crate::node_id::NodeId;
use crate::queue::{EventQueue, EventTime};
use crate::rng::{indices_below, Draw, ExponentialSampler, SimRng};
use crate::time::{Duration, Instant};

verus! {

#[derive(Debug, PartialEq, Eq)]
pub enum Event<M: ProtocolMessage> {
    Message(SimulationMessage<M>),
    Tick,
}

/// A message on its way, with the number under which it was sent. All
/// copies of one message bear one number.
#[derive(Debug, PartialEq, Eq)]
pub struct SimulationMessage<M: ProtocolMessage> {
    pub message: M,
    pub id: usize,
}

impl<M: ProtocolMessage> Clone for SimulationMessage<M> {
    fn clone(&self) -> (copy: SimulationMessage<M>)
        ensures
            cloned(self.message, copy.message),
            copy.id == self.id,
    {
        SimulationMessage { message: self.message.clone(), id: self.id }
    }
}

impl<M: ProtocolMessage> Clone for Event<M> {
    fn clone(&self) -> (copy: Event<M>)
        ensures
            match *self {
                Event::Tick => copy is Tick,
                Event::Message(sent) => copy matches Event::Message(other) && cloned(
                    sent.message,
                    other.message,
                ) && other.id == sent.id,
            },
    {
        match self {
            Event::Tick => Event::Tick,
            Event::Message(sent) => Event::Message(sent.clone()),
        }
    }
}

impl<M: ProtocolMessage> SimulationMessage<M> {
    pub fn new(message: M, id: usize) -> (sent: SimulationMessage<M>)
        ensures
            sent.message == message,
            sent.id == id,
    {
        SimulationMessage { message, id }
    }
}

/// The number of servers among `nodes` that are down.
pub open spec fn failed_count<N: DeterministicNode>(nodes: Seq<Node<N>>) -> nat
    decreases nodes.len(),
{
    if nodes.len() == 0 {
        0
    } else {
        failed_count(nodes.drop_last()) + if nodes.last()@.state is Failed {
            1nat
        } else {
            0nat
        }
    }
}

/// Whether one more of `server_count` servers may crash while `down` of
/// them do not take part: only while fewer than half of them, rounded down,
/// are out.
pub open spec fn spec_quorum_allows_failure(server_count: usize, down: usize) -> bool {
    down < server_count / 2
}

/// Decides whether one more server may crash.
pub fn quorum_allows_failure(server_count: usize, down: usize) -> (allowed: bool)
    ensures
        allowed == spec_quorum_allows_failure(server_count, down),
{
    down < server_count / 2
}

/// The draws of a tick of the first servers are among those of more servers.
pub proof fn lemma_tick_draws_grow<N: DeterministicNode>(
    nodes: Seq<Node<N>>,
    now: Instant,
    fewer: int,
    more: int,
)
    requires
        fewer <= more,
    ensures
        tick_draws_before(nodes, now, fewer) <= tick_draws_before(nodes, now, more),
    decreases more - fewer,
{
    if fewer < more {
        lemma_tick_draws_grow(nodes, now, fewer, more - 1);
    }
}

/// When the server of index `i` has ticked after those before it, all
/// servers up to it have ticked, by the draws of those before and then its
/// own.
proof fn lemma_server_ticked_next<N: DeterministicNode>(
    pre: Seq<Node<N>>,
    now: Instant,
    i: int,
    earlier: Seq<Draw>,
    mine: Seq<Draw>,
    before: Seq<Node<N>>,
    after: Seq<Node<N>>,
)
    requires
        0 <= i < pre.len(),
        before.len() == pre.len(),
        before[i] == pre[i],
        after == before.update(i, after[i]),
        earlier.len() == tick_draws_before(pre, now, i),
        forall|j: int| 0 <= j < i ==> #[trigger] server_ticked(pre, now, earlier, before, j),
        after[i]@.failure_config == pre[i]@.failure_config,
        after[i]@.replica_count == pre[i]@.replica_count,
        after[i]@.start_time == pre[i]@.start_time,
        node_transition_draws(pre[i]@.state, now, false, pre[i]@.failure_config, mine),
        after[i]@.state == node_after_transition(
            pre[i]@.state,
            now,
            false,
            pre[i]@.failure_config,
            mine,
        ),
    ensures
        (earlier + mine).len() == tick_draws_before(pre, now, i + 1),
        forall|j: int|
            0 <= j < i + 1 ==> #[trigger] server_ticked(pre, now, earlier + mine, after, j),
{
    let draws = earlier + mine;
    assert(mine.len() == node_transition_draw_count(
        pre[i]@.state,
        now,
        false,
        pre[i]@.failure_config,
    ));
    assert(tick_draws_before(pre, now, i + 1) == tick_draws_before(pre, now, i) + mine.len());
    assert forall|j: int| 0 <= j < i + 1 implies #[trigger] server_ticked(
        pre,
        now,
        draws,
        after,
        j,
    ) by {
        let from = tick_draws_before(pre, now, j) as int;
        let to = tick_draws_before(pre, now, j + 1) as int;
        lemma_tick_draws_grow(pre, now, j, j + 1);
        if j < i {
            lemma_tick_draws_grow(pre, now, j + 1, i);
            assert(draws.subrange(from, to) =~= earlier.subrange(from, to));
            assert(server_ticked(pre, now, earlier, before, j));
            assert(after[j] == before[j]);
        } else {
            assert(draws.subrange(from, to) =~= mine);
        }
    }
}

/// Where no server is down, the count of servers that are down is zero.
pub proof fn lemma_failed_count_none<N: DeterministicNode>(nodes: Seq<Node<N>>)
    requires
        forall|i: int| 0 <= i < nodes.len() ==> !((#[trigger] nodes[i])@.state is Failed),
    ensures
        failed_count(nodes) == 0,
    decreases nodes.len(),
{
    if nodes.len() > 0 {
        let front = nodes.drop_last();
        assert forall|i: int| 0 <= i < front.len() implies !((#[trigger] front[i])@.state
            is Failed) by {
            assert(front[i] == nodes[i]);
        }
        lemma_failed_count_none(front);
    }
}

/// Changing one server changes the count of servers that are down by that
/// server alone.
pub proof fn lemma_failed_count_update<N: DeterministicNode>(
    nodes: Seq<Node<N>>,
    i: int,
    node: Node<N>,
)
    requires
        0 <= i < nodes.len(),
    ensures
        failed_count(nodes.update(i, node)) + (if nodes[i]@.state is Failed {
            1nat
        } else {
            0nat
        }) == failed_count(nodes) + (if node@.state is Failed {
            1nat
        } else {
            0nat
        }),
    decreases nodes.len(),
{
    let after = nodes.update(i, node);
    if i == nodes.len() - 1 {
        assert(after.drop_last() =~= nodes.drop_last());
    } else {
        assert(after.drop_last() =~= nodes.drop_last().update(i, node));
        lemma_failed_count_update(nodes.drop_last(), i, node);
    }
}

/// Why a simulator could not be set up.
#[derive(Debug, Clone, Copy, PartialEq, Eq, Structural)]
pub enum SetupError {
    /// The configuration is not usable.
    InvalidConfiguration,
    /// The clock cannot represent the end of the time budget and one step
    /// more.
    TimeBudgetTooLong,
    /// The servers do not give the IDs `Node(0)`, `Node(1)`, and so on, in
    /// this order.
    NodeIdsNotSequential,
    /// The clients do not give the IDs `Client(0)`, `Client(1)`, and so on,
    /// in this order.
    ClientIdsNotSequential,
}

impl SetupError {
    /// The error in words.
    pub open spec fn spec_message(self) -> Seq<char> {
        match self {
            SetupError::InvalidConfiguration => "The configuration is not usable"@,
            SetupError::TimeBudgetTooLong => "The time budget does not fit the clock"@,
            SetupError::NodeIdsNotSequential => "Node IDs must be sequential starting from 0"@,
            SetupError::ClientIdsNotSequential => "Client IDs must be sequential starting from 0"@,
        }
    }

    /// Gives the error in words.
    pub fn message(&self) -> (text: &'static str)
        ensures
            text@ == self.spec_message(),
    {
        match self {
            SetupError::InvalidConfiguration => "The configuration is not usable",
            SetupError::TimeBudgetTooLong => "The time budget does not fit the clock",
            SetupError::NodeIdsNotSequential => "Node IDs must be sequential starting from 0",
            SetupError::ClientIdsNotSequential => "Client IDs must be sequential starting from 0",
        }
    }
}

/// The error with which a set-up was refused, if it was.
pub open spec fn refusal<T>(made: Result<T, SetupError>) -> Option<SetupError> {
    match made {
        Err(error) => Some(error),
        Ok(_) => None,
    }
}

/// The ID that the participant at position `i` must give: `Client(i)` for a
/// client and `Node(i)` for a server.
pub open spec fn expected_id(i: int, client: bool) -> NodeId {
    if client {
        NodeId::Client(i as usize)
    } else {
        NodeId::Node(i as usize)
    }
}

/// Whether `ids` are the IDs of the servers, or of the clients, of a
/// simulation: at each position the ID of that index.
pub open spec fn sequential_ids(ids: Seq<NodeId>, client: bool) -> bool {
    forall|i: int| 0 <= i < ids.len() ==> #[trigger] ids[i] == expected_id(i, client)
}

/// Decides whether `ids` are sequential from zero under the tag of servers
/// or, if `client` is set, of clients.
pub fn are_sequential(ids: &Vec<NodeId>, client: bool) -> (ok: bool)
    ensures
        ok == sequential_ids(ids@, client),
{
    let mut i: usize = 0;
    while i < ids.len()
        invariant
            i <= ids.len(),
            forall|j: int| 0 <= j < i ==> #[trigger] ids@[j] == expected_id(j, client),
        decreases ids.len() - i,
    {
        let expected = if client {
            NodeId::Client(i)
        } else {
            NodeId::Node(i)
        };
        if ids[i] != expected {
            assert(ids@[i as int] != expected_id(i as int, client));
            return false;
        }
        i += 1;
    }
    true
}

/// IDs that are sequential are dense: every index below their number
/// occurs under the right tag, each once, and nothing else occurs.
pub proof fn lemma_sequential_ids_are_dense(ids: Seq<NodeId>, client: bool)
    requires
        sequential_ids(ids, client),
        ids.len() <= usize::MAX,
    ensures
        ids.no_duplicates(),
        forall|k: int| 0 <= k < ids.len() ==> ids.contains(#[trigger] expected_id(k, client)),
        forall|id: NodeId| #[trigger]
            ids.contains(id) ==> id.index() < ids.len() && (id is Client) == client,
{
    assert forall|k: int| 0 <= k < ids.len() implies ids.contains(
        #[trigger] expected_id(k, client),
    ) by {
        assert(ids[k] == expected_id(k, client));
    }
    assert forall|id: NodeId| #[trigger] ids.contains(id) implies id.index() < ids.len() && (id
        is Client) == client by {
        let i = choose|i: int| 0 <= i < ids.len() && ids[i] == id;
        assert(ids[i] == expected_id(i, client));
    }
}

/// What the check of the IDs says of the IDs that the servers and the
/// clients gave.
pub open spec fn spec_validate(node_ids: Seq<NodeId>, client_ids: Seq<NodeId>) -> Result<
    (),
    SetupError,
> {
    if !sequential_ids(node_ids, false) {
        Err(SetupError::NodeIdsNotSequential)
    } else if !sequential_ids(client_ids, true) {
        Err(SetupError::ClientIdsNotSequential)
    } else {
        Ok(())
    }
}

/// Decides on the IDs that the servers and the clients gave.
pub fn validate_ids(node_ids: &Vec<NodeId>, client_ids: &Vec<NodeId>) -> (verdict: Result<
    (),
    SetupError,
>)
    ensures
        verdict == spec_validate(node_ids@, client_ids@),
{
    if !are_sequential(node_ids, false) {
        Err(SetupError::NodeIdsNotSequential)
    } else if !are_sequential(client_ids, true) {
        Err(SetupError::ClientIdsNotSequential)
    } else {
        Ok(())
    }
}

/// Whether `ids` are what the servers gave as their IDs, one by one.
pub open spec fn ids_of_nodes<N: DeterministicNode>(nodes: Seq<N>, ids: Seq<NodeId>) -> bool {
    &&& ids.len() == nodes.len()
    &&& forall|i: int| 0 <= i < nodes.len() ==> reported_node_id(nodes[i], #[trigger] ids[i])
}

/// Whether `ids` are what the clients gave as their IDs, one by one.
pub open spec fn ids_of_clients<C: DeterministicClient>(clients: Seq<C>, ids: Seq<NodeId>) -> bool {
    &&& ids.len() == clients.len()
    &&& forall|i: int| 0 <= i < clients.len() ==> reported_client_id(clients[i], #[trigger] ids[i])
}

/// Asks every server and every client for its ID and checks that the IDs
/// are sequential from zero: `Node(0)`, `Node(1)` and so on for the
/// servers, `Client(0)`, `Client(1)` and so on for the clients.
pub fn validate_node_ids<N: DeterministicNode, C: DeterministicClient>(
    nodes: &[N],
    clients: &[C],
) -> (verdict: Result<(), SetupError>)
    ensures
        exists|node_ids: Seq<NodeId>, client_ids: Seq<NodeId>|
            ids_of_nodes(nodes@, node_ids) && ids_of_clients(clients@, client_ids) && verdict
                == #[trigger] spec_validate(node_ids, client_ids),
{
    let mut node_ids: Vec<NodeId> = Vec::new();
    let mut i: usize = 0;
    while i < nodes.len()
        invariant
            i <= nodes.len(),
            node_ids@.len() == i,
            forall|j: int| 0 <= j < i ==> reported_node_id(nodes@[j], #[trigger] node_ids@[j]),
        decreases nodes.len() - i,
    {
        node_ids.push(nodes[i].id());
        i += 1;
    }
    let mut client_ids: Vec<NodeId> = Vec::new();
    let mut j: usize = 0;
    while j < clients.len()
        invariant
            j <= clients.len(),
            client_ids@.len() == j,
            forall|k: int|
                0 <= k < j ==> reported_client_id(clients@[k], #[trigger] client_ids@[k]),
        decreases clients.len() - j,
    {
        client_ids.push(clients[j].id());
        j += 1;
    }
    let verdict = validate_ids(&node_ids, &client_ids);
    assert(ids_of_nodes(nodes@, node_ids@));
    assert(ids_of_clients(clients@, client_ids@));
    verdict
}

/// The IDs of a simulation with `server_count` servers and `client_count`
/// clients: those of the servers by index, then those of the clients by
/// index.
pub open spec fn spec_all_ids(server_count: nat, client_count: nat) -> Seq<NodeId> {
    Seq::new(server_count, |i: int| NodeId::Node(i as usize)) + Seq::new(
        client_count,
        |i: int| NodeId::Client(i as usize),
    )
}

/// Lists the IDs of a simulation with `server_count` servers and
/// `client_count` clients.
pub fn all_ids(server_count: usize, client_count: usize) -> (ids: Vec<NodeId>)
    ensures
        ids@ == spec_all_ids(server_count as nat, client_count as nat),
{
    let mut ids: Vec<NodeId> = Vec::new();
    let servers = indices_below(server_count);
    let mut i: usize = 0;
    while i < servers.len()
        invariant
            i <= servers.len(),
            servers@.len() == server_count,
            forall|k: int| 0 <= k < server_count ==> servers@[k] == k,
            ids@ == Seq::new(i as nat, |k: int| NodeId::Node(k as usize)),
        decreases servers.len() - i,
    {
        ids.push(NodeId::Node(servers[i]));
        i += 1;
    }
    let clients = indices_below(client_count);
    let mut j: usize = 0;
    while j < clients.len()
        invariant
            j <= clients.len(),
            clients@.len() == client_count,
            forall|k: int| 0 <= k < client_count ==> clients@[k] == k,
            ids@ == Seq::new(server_count as nat, |k: int| NodeId::Node(k as usize)) + Seq::new(
                j as nat,
                |k: int| NodeId::Client(k as usize),
            ),
        decreases clients.len() - j,
    {
        ids.push(NodeId::Client(clients[j]));
        j += 1;
    }
    ids
}

/// The queue `queue` with the deliveries `out` in it: those that the
/// network returned for the message of number `id` that was sent at `now`.
/// Each delivery is due as long after `now` as its delay, and they take the
/// places behind the first `offset` events, in their order.
pub open spec fn scheduled<M: ProtocolMessage>(
    queue: Map<EventTime, Event<M>>,
    out: Seq<DeliverMessage<M>>,
    now: Instant,
    id: usize,
    offset: nat,
) -> Map<EventTime, Event<M>>
    decreases out.len(),
{
    if out.len() == 0 {
        queue
    } else {
        scheduled(queue, out.drop_last(), now, id, offset).insert(
            EventTime {
                time: Instant { nanos: (now.nanos + out.last().delay.nanos) as u64 },
                offset: (offset + out.len()) as usize,
            },
            Event::Message(SimulationMessage { message: out.last().message, id }),
        )
    }
}

/// The destination that is on record once a message for `to` has strayed:
/// the one that was on record before, if there was one.
pub open spec fn first_stray(noted: Option<NodeId>, to: NodeId) -> Option<NodeId> {
    if noted is Some {
        noted
    } else {
        Some(to)
    }
}

/// The messages among `delivered`.
pub open spec fn messages_of<M>(delivered: Seq<DeliverMessage<M>>) -> Set<M> {
    Set::new(
        |message: M|
            exists|i: int| 0 <= i < delivered.len() && (#[trigger] delivered[i]).message == message,
    )
}

/// The messages among the deliveries in `outs`.
pub open spec fn messages_in<M>(outs: Seq<Seq<DeliverMessage<M>>>) -> Set<M>
    decreases outs.len(),
{
    if outs.len() == 0 {
        Set::empty()
    } else {
        messages_in(outs.drop_last()).union(messages_of(outs.last()))
    }
}

/// The number of deliveries in `outs`.
pub open spec fn total_deliveries<M>(outs: Seq<Seq<DeliverMessage<M>>>) -> nat
    decreases outs.len(),
{
    if outs.len() == 0 {
        0
    } else {
        total_deliveries(outs.drop_last()) + outs.last().len()
    }
}

/// The queue `queue` with all deliveries of `outs` in it, where `outs[k]` is
/// what the network returned for the message of number `sent + k + 1`, all
/// sent at `now`. The deliveries take the places behind the first `offset`
/// events, message by message and in the order in which the network
/// returned them.
pub open spec fn scheduled_all<M: ProtocolMessage>(
    queue: Map<EventTime, Event<M>>,
    outs: Seq<Seq<DeliverMessage<M>>>,
    now: Instant,
    sent: nat,
    offset: nat,
) -> Map<EventTime, Event<M>>
    decreases outs.len(),
{
    if outs.len() == 0 {
        queue
    } else {
        scheduled(
            scheduled_all(queue, outs.drop_last(), now, sent, offset),
            outs.last(),
            now,
            (sent + outs.len()) as usize,
            offset + total_deliveries(outs.drop_last()),
        )
    }
}

/// The queue `queue` with the deliveries of `outs` in it as far as they
/// were scheduled when the sending stopped: all deliveries for the messages
/// before the last, and the first `placed` deliveries for the last.
pub open spec fn scheduled_partly<M: ProtocolMessage>(
    queue: Map<EventTime, Event<M>>,
    outs: Seq<Seq<DeliverMessage<M>>>,
    now: Instant,
    sent: nat,
    offset: nat,
    placed: int,
) -> Map<EventTime, Event<M>> {
    if outs.len() == 0 {
        queue
    } else {
        scheduled(
            scheduled_all(queue, outs.drop_last(), now, sent, offset),
            outs.last().take(placed),
            now,
            (sent + outs.len()) as usize,
            offset + total_deliveries(outs.drop_last()),
        )
    }
}

/// The number of deliveries of `outs` that were scheduled when the sending
/// stopped: all for the messages before the last, and `placed` for the
/// last.
pub open spec fn partly_delivered<M>(outs: Seq<Seq<DeliverMessage<M>>>, placed: int) -> int {
    if outs.len() == 0 {
        0
    } else {
        total_deliveries(outs.drop_last()) + placed
    }
}

/// Whether `placed` may be the number of deliveries scheduled for the last
/// message of `outs`.
pub open spec fn placed_in<M>(outs: Seq<Seq<DeliverMessage<M>>>, placed: int) -> bool {
    if outs.len() == 0 {
        placed == 0
    } else {
        0 <= placed <= outs.last().len()
    }
}

/// The place of the delivery of index `j` among those that the network
/// returned for one message sent at `now`: due as long after `now` as its
/// delay, behind the first `offset` events and the deliveries before it.
pub open spec fn place_of_delivery<M>(
    out: Seq<DeliverMessage<M>>,
    now: Instant,
    offset: nat,
    j: int,
) -> EventTime {
    EventTime {
        time: Instant { nanos: (now.nanos + out[j].delay.nanos) as u64 },
        offset: (offset + j + 1) as usize,
    }
}

/// Nothing is scheduled for a message but what the network returned for it:
/// an event that the deliveries `out` have brought into the queue is one of
/// these deliveries, under the number of the message and at the instant of
/// the sending plus the delay of the delivery.
pub proof fn lemma_scheduled_is_delivery<M: ProtocolMessage>(
    queue: Map<EventTime, Event<M>>,
    out: Seq<DeliverMessage<M>>,
    now: Instant,
    id: usize,
    offset: nat,
    key: EventTime,
)
    requires
        scheduled(queue, out, now, id, offset).contains_key(key),
        !queue.contains_key(key),
    ensures
        exists|j: int|
            0 <= j < out.len() && key == #[trigger] place_of_delivery(out, now, offset, j)
                && scheduled(queue, out, now, id, offset)[key] == Event::Message(
                SimulationMessage { message: out[j].message, id },
            ),
    decreases out.len(),
{
    if out.len() > 0 {
        let last = out.len() - 1;
        if key == place_of_delivery(out, now, offset, last) {
        } else {
            lemma_scheduled_is_delivery(queue, out.drop_last(), now, id, offset, key);
            let j = choose|j: int|
                0 <= j < out.drop_last().len() && key == #[trigger] place_of_delivery(
                    out.drop_last(),
                    now,
                    offset,
                    j,
                ) && scheduled(queue, out.drop_last(), now, id, offset)[key] == Event::Message(
                    SimulationMessage { message: out.drop_last()[j].message, id },
                );
            assert(out.drop_last()[j] == out[j]);
            assert(key == place_of_delivery(out, now, offset, j));
        }
    }
}

/// Nothing is scheduled in a step but what the network returned: an event
/// that the deliveries `outs` have brought into the queue is a delivery
/// that the network returned for one of the messages, under the number of
/// that message and at the instant of the sending plus its delay.
pub proof fn lemma_scheduled_all_are_deliveries<M: ProtocolMessage>(
    queue: Map<EventTime, Event<M>>,
    outs: Seq<Seq<DeliverMessage<M>>>,
    now: Instant,
    sent: nat,
    offset: nat,
    key: EventTime,
)
    requires
        scheduled_all(queue, outs, now, sent, offset).contains_key(key),
        !queue.contains_key(key),
    ensures
        exists|k: int, j: int|
            0 <= k < outs.len() && 0 <= j < outs[k].len() && key.time.nanos == (now.nanos
                + outs[k][j].delay.nanos) as u64 && scheduled_all(
                queue,
                outs,
                now,
                sent,
                offset,
            )[key] == Event::Message(
                SimulationMessage {
                    message: (#[trigger] outs[k][j]).message,
                    id: (sent + k + 1) as usize,
                },
            ),
    decreases outs.len(),
{
    if outs.len() > 0 {
        let earlier = scheduled_all(queue, outs.drop_last(), now, sent, offset);
        let k = outs.len() - 1;
        if earlier.contains_key(key) && scheduled_all(queue, outs, now, sent, offset)[key]
            == earlier[key] {
            lemma_scheduled_all_are_deliveries(queue, outs.drop_last(), now, sent, offset, key);
            let (k0, j0) = choose|k0: int, j0: int|
                0 <= k0 < outs.drop_last().len() && 0 <= j0 < outs.drop_last()[k0].len()
                    && key.time.nanos == (now.nanos + outs.drop_last()[k0][j0].delay.nanos) as u64
                    && earlier[key] == Event::Message(
                    SimulationMessage {
                        message: (#[trigger] outs.drop_last()[k0][j0]).message,
                        id: (sent + k0 + 1) as usize,
                    },
                );
            assert(outs.drop_last()[k0] == outs[k0]);
            assert(outs[k0][j0] == outs.drop_last()[k0][j0]);
        } else {
            let base = offset + total_deliveries(outs.drop_last());
            let id = (sent + outs.len()) as usize;
            if earlier.contains_key(key) {
                lemma_scheduled_overwrites(earlier, outs.last(), now, id, base, key);
            } else {
                lemma_scheduled_is_delivery(earlier, outs.last(), now, id, base, key);
            }
            let j = choose|j: int|
                0 <= j < outs.last().len() && key == #[trigger] place_of_delivery(
                    outs.last(),
                    now,
                    base,
                    j,
                ) && scheduled(earlier, outs.last(), now, id, base)[key] == Event::Message(
                    SimulationMessage { message: outs.last()[j].message, id },
                );
            assert(outs[k][j] == outs.last()[j]);
        }
    }
}

/// The place of the delivery `outs[k][j]` among those that the network
/// returned for a row of messages sent at `now`: behind the first `offset`
/// events, the deliveries for the messages before and the deliveries
/// before it for the same message.
pub open spec fn place_in_row<M>(
    outs: Seq<Seq<DeliverMessage<M>>>,
    now: Instant,
    offset: nat,
    k: int,
    j: int,
) -> EventTime {
    place_of_delivery(outs[k], now, offset + total_deliveries(outs.take(k)), j)
}

/// The deliveries for the first `b` messages are at least as many as those
/// for the first `a` of them, and each message adds its own.
pub proof fn lemma_total_deliveries_grows<M>(outs: Seq<Seq<DeliverMessage<M>>>, a: int, b: int)
    requires
        0 <= a <= b <= outs.len(),
    ensures
        total_deliveries(outs.take(a)) <= total_deliveries(outs.take(b)),
        a < b ==> total_deliveries(outs.take(a)) + outs[a].len() <= total_deliveries(
            outs.take(b),
        ),
    decreases b - a,
{
    if a < b {
        assert(outs.take(b).drop_last() =~= outs.take(b - 1));
        assert(outs.take(b).last() == outs[b - 1]);
        lemma_total_deliveries_grows(outs, a, b - 1);
    }
}

/// Scheduling the deliveries for one message changes nothing at the places
/// of other events.
proof fn lemma_scheduled_keeps<M: ProtocolMessage>(
    queue: Map<EventTime, Event<M>>,
    out: Seq<DeliverMessage<M>>,
    now: Instant,
    id: usize,
    offset: nat,
    key: EventTime,
)
    requires
        offset + out.len() <= usize::MAX,
        key.offset <= offset || key.offset > offset + out.len(),
    ensures
        scheduled(queue, out, now, id, offset).contains_key(key) == queue.contains_key(key),
        queue.contains_key(key) ==> scheduled(queue, out, now, id, offset)[key] == queue[key],
    decreases out.len(),
{
    if out.len() > 0 {
        lemma_scheduled_keeps(queue, out.drop_last(), now, id, offset, key);
    }
}

/// Every delivery that the network returned for a message is scheduled, at
/// a place of its own.
proof fn lemma_delivery_is_scheduled<M: ProtocolMessage>(
    queue: Map<EventTime, Event<M>>,
    out: Seq<DeliverMessage<M>>,
    now: Instant,
    id: usize,
    offset: nat,
    j: int,
)
    requires
        offset + out.len() <= usize::MAX,
        0 <= j < out.len(),
    ensures
        scheduled(queue, out, now, id, offset).contains_key(
            place_of_delivery(out, now, offset, j),
        ),
        scheduled(queue, out, now, id, offset)[place_of_delivery(out, now, offset, j)]
            == Event::Message(SimulationMessage { message: out[j].message, id }),
    decreases out.len(),
{
    if j < out.len() - 1 {
        lemma_delivery_is_scheduled(queue, out.drop_last(), now, id, offset, j);
        assert(out.drop_last()[j] == out[j]);
        assert(place_of_delivery(out.drop_last(), now, offset, j) == place_of_delivery(
            out,
            now,
            offset,
            j,
        ));
    }
}

/// Everything that the network returned is scheduled: each delivery for
/// each message of a step waits in the queue at its place, as a message
/// event under the number of the message that it is for.
pub proof fn lemma_every_delivery_is_scheduled<M: ProtocolMessage>(
    queue: Map<EventTime, Event<M>>,
    outs: Seq<Seq<DeliverMessage<M>>>,
    now: Instant,
    sent: nat,
    offset: nat,
    k: int,
    j: int,
)
    requires
        offset + total_deliveries(outs) <= usize::MAX,
        0 <= k < outs.len(),
        0 <= j < outs[k].len(),
    ensures
        scheduled_all(queue, outs, now, sent, offset).contains_key(
            place_in_row(outs, now, offset, k, j),
        ),
        scheduled_all(queue, outs, now, sent, offset)[place_in_row(outs, now, offset, k, j)]
            == Event::Message(
            SimulationMessage { message: outs[k][j].message, id: (sent + k + 1) as usize },
        ),
    decreases outs.len(),
{
    let earlier = scheduled_all(queue, outs.drop_last(), now, sent, offset);
    let base = offset + total_deliveries(outs.drop_last());
    let id = (sent + outs.len()) as usize;
    if k == outs.len() - 1 {
        assert(outs.take(k) =~= outs.drop_last());
        lemma_delivery_is_scheduled(earlier, outs.last(), now, id, base, j);
    } else {
        lemma_every_delivery_is_scheduled(queue, outs.drop_last(), now, sent, offset, k, j);
        assert(outs.drop_last().take(k) =~= outs.take(k));
        assert(outs.drop_last()[k] == outs[k]);
        let place = place_in_row(outs, now, offset, k, j);
        assert(place == place_in_row(outs.drop_last(), now, offset, k, j));
        assert(outs.take(outs.len() - 1) =~= outs.drop_last());
        lemma_total_deliveries_grows(outs, k, outs.len() - 1);
        lemma_scheduled_keeps(earlier, outs.last(), now, id, base, place);
    }
}

/// Each delivery has a place of its own: two deliveries of one step wait at
/// different places.
pub proof fn lemma_deliveries_have_their_own_places<M>(
    outs: Seq<Seq<DeliverMessage<M>>>,
    now: Instant,
    offset: nat,
    one: (int, int),
    other: (int, int),
)
    requires
        offset + total_deliveries(outs) <= usize::MAX,
        0 <= one.0 < outs.len(),
        0 <= one.1 < outs[one.0].len(),
        0 <= other.0 < outs.len(),
        0 <= other.1 < outs[other.0].len(),
        one != other,
    ensures
        place_in_row(outs, now, offset, one.0, one.1) != place_in_row(
            outs,
            now,
            offset,
            other.0,
            other.1,
        ),
{
    assert(outs.take(outs.len() as int) =~= outs);
    lemma_total_deliveries_grows(outs, one.0, outs.len() as int);
    lemma_total_deliveries_grows(outs, other.0, outs.len() as int);
    if one.0 < other.0 {
        lemma_total_deliveries_grows(outs, one.0, other.0);
    } else if other.0 < one.0 {
        lemma_total_deliveries_grows(outs, other.0, one.0);
    }
}

/// Where scheduling changes what waits under a place, what waits there
/// then is one of the deliveries scheduled.
proof fn lemma_scheduled_overwrites<M: ProtocolMessage>(
    queue: Map<EventTime, Event<M>>,
    out: Seq<DeliverMessage<M>>,
    now: Instant,
    id: usize,
    offset: nat,
    key: EventTime,
)
    requires
        queue.contains_key(key),
        scheduled(queue, out, now, id, offset)[key] != queue[key],
    ensures
        exists|j: int|
            0 <= j < out.len() && key == #[trigger] place_of_delivery(out, now, offset, j)
                && scheduled(queue, out, now, id, offset)[key] == Event::Message(
                SimulationMessage { message: out[j].message, id },
            ),
    decreases out.len(),
{
    if out.len() > 0 {
        let last = out.len() - 1;
        if key == place_of_delivery(out, now, offset, last) {
        } else {
            lemma_scheduled_overwrites(queue, out.drop_last(), now, id, offset, key);
            let j = choose|j: int|
                0 <= j < out.drop_last().len() && key == #[trigger] place_of_delivery(
                    out.drop_last(),
                    now,
                    offset,
                    j,
                ) && scheduled(queue, out.drop_last(), now, id, offset)[key] == Event::Message(
                    SimulationMessage { message: out.drop_last()[j].message, id },
                );
            assert(out.drop_last()[j] == out[j]);
            assert(key == place_of_delivery(out, now, offset, j));
        }
    }
}

/// Whether the handling of an event, by the draws `dispatch`, stands at the
/// head of a step that made the draws `draws`. The servers and clients
/// have answered `emitted`.
pub open spec fn handled_by<M>(emitted: Vec<M>, dispatch: Seq<Draw>, draws: Seq<Draw>) -> bool {
    dispatch.is_prefix_of(draws)
}

/// Whether `parts` has a part of index `i`.
pub open spec fn has_part<A>(parts: Seq<A>, i: int) -> bool {
    0 <= i < parts.len()
}

/// Puts `more` behind `messages`.
fn extend<M>(messages: &mut Vec<M>, more: Vec<M>)
    ensures
        final(messages)@ == old(messages)@ + more@,
{
    let mut more = more;
    messages.append(&mut more);
}

/// The answers `parts`, one behind the other.
pub open spec fn concat_all<M>(parts: Seq<Vec<M>>) -> Seq<M>
    decreases parts.len(),
{
    if parts.len() == 0 {
        Seq::empty()
    } else {
        concat_all(parts.drop_last()) + parts.last()@
    }
}

/// What a tick returns: the answers of the servers, by index, and then
/// those of the clients, by index.
pub open spec fn tick_answer<M>(servers: Seq<Vec<M>>, clients: Seq<Vec<M>>) -> Seq<M> {
    concat_all(servers) + concat_all(clients)
}

/// The number of draws by which the first `count` of the servers `nodes`
/// catch up with the clock at a tick at `now`.
pub open spec fn tick_draws_before<N: DeterministicNode>(
    nodes: Seq<Node<N>>,
    now: Instant,
    count: int,
) -> nat
    decreases count,
{
    if count <= 0 {
        0
    } else {
        tick_draws_before(nodes, now, count - 1) + node_transition_draw_count(
            nodes[count - 1]@.state,
            now,
            false,
            nodes[count - 1]@.failure_config,
        )
    }
}

/// How a tick at `now` changes the wrapper of the server of index `i`:
/// `pre` are the servers before, `draws` the draws of the whole tick, `post`
/// the servers after.
///
/// The servers catch up with the clock in the order of their indices, none
/// of them crashing, each by its own stretch of the draws.
pub open spec fn server_ticked<N: DeterministicNode>(
    pre: Seq<Node<N>>,
    now: Instant,
    draws: Seq<Draw>,
    post: Seq<Node<N>>,
    i: int,
) -> bool {
    let mine = draws.subrange(
        tick_draws_before(pre, now, i) as int,
        tick_draws_before(pre, now, i + 1) as int,
    );
    &&& post[i]@.failure_config == pre[i]@.failure_config
    &&& post[i]@.replica_count == pre[i]@.replica_count
    &&& post[i]@.start_time == pre[i]@.start_time
    &&& node_transition_draws(pre[i]@.state, now, false, pre[i]@.failure_config, mine)
    &&& post[i]@.state == node_after_transition(
        pre[i]@.state,
        now,
        false,
        pre[i]@.failure_config,
        mine,
    )
}

/// How a message at `now` for the server of index `i` changes the servers
/// and what is sent in answer: `pre` are the servers before, `draws` the
/// draws made, `post` the servers after, `out` the answer.
///
/// The message goes to the wrapper of that server, which lets the server
/// crash exactly if fewer than half of all servers, rounded down, are down.
/// No other server is touched.
pub open spec fn server_got_message<N: DeterministicNode>(
    pre: Seq<Node<N>>,
    i: int,
    now: Instant,
    draws: Seq<Draw>,
    post: Seq<Node<N>>,
    out: Seq<N::Message>,
) -> bool {
    &&& post.len() == pre.len()
    &&& forall|j: int| 0 <= j < pre.len() && j != i ==> #[trigger] post[j] == pre[j]
    &&& node_handles(pre[i]@, now, failed_count(pre) < pre.len() / 2, draws, post[i]@, out)
}

/// The number of entries in the record of draws once the first `count`
/// servers of a simulation have started: the seed, and one draw for each of
/// these servers if the configuration lets servers crash.
pub open spec fn start_record_length(config: FailureConfiguration, count: nat) -> nat {
    if config.mean_time_between_failures.is_some() {
        1 + count
    } else {
        1
    }
}

pub struct Simulator<
    N: DeterministicNode,
    C: DeterministicClient<Message = N::Message>,
    I: InvariantChecker<N, C>,
    S: ExponentialSampler,
> {
    start_time: Instant,
    network: Network<N::Message>,
    nodes: Vec<Node<N>>,
    clients: Vec<C>,
    events: EventQueue<Event<N::Message>>,
    config: Configuration,
    rng: SimRng<S>,
    elapsed: Duration,
    event_processed_count: usize,
    total_event_count: usize,
    total_message_count: usize,
    invariant_checker: I,
    /// The first destination of a handled message that was no server and
    /// no client of this simulation, if there was one.
    stray: Option<NodeId>,
    /// The instants at which a tick was handled, in their order.
    fired: Ghost<Seq<Instant>>,
    /// The messages that the network has handed back for delivery so far.
    delivered: Ghost<Set<N::Message>>,
    /// The events taken from the queue so far, each with its place, in
    /// their order.
    taken: Ghost<Seq<(EventTime, Event<N::Message>)>>,
}

impl<
    N: DeterministicNode,
    C: DeterministicClient<Message = N::Message>,
    I: InvariantChecker<N, C>,
    S: ExponentialSampler,
> Simulator<N, C, I, S> {
    /// The first destination of a handled message that was no server and
    /// no client of this simulation, if there was one. Such a message is
    /// handled by dropping it.
    pub closed spec fn stray(&self) -> Option<NodeId> {
        self.stray
    }

    /// The wrapped servers, by index.
    pub closed spec fn nodes(&self) -> Seq<Node<N>> {
        self.nodes@
    }

    /// The clients, by index.
    pub closed spec fn clients(&self) -> Seq<C> {
        self.clients@
    }

    /// The events that wait in the queue, each under its place.
    pub closed spec fn queue(&self) -> Map<EventTime, Event<N::Message>> {
        self.events@
    }

    pub closed spec fn configuration(&self) -> Configuration {
        self.config
    }

    /// The instant at which the simulation starts.
    pub closed spec fn start(&self) -> Instant {
        self.start_time
    }

    /// The virtual time that has passed up to the last event taken from the
    /// queue.
    pub closed spec fn spec_elapsed(&self) -> Duration {
        self.elapsed
    }

    /// The instants at which a tick was handled, in their order.
    pub closed spec fn ticks_fired(&self) -> Seq<Instant> {
        self.fired@
    }

    /// The messages that the network has handed back for delivery so far.
    pub closed spec fn network_output(&self) -> Set<N::Message> {
        self.delivered@
    }

    /// The events taken from the queue so far, each with its place, in the
    /// order in which they were taken.
    pub closed spec fn events_taken(&self) -> Seq<(EventTime, Event<N::Message>)> {
        self.taken@
    }

    /// The number of events taken from the queue so far.
    pub closed spec fn events_processed(&self) -> nat {
        self.event_processed_count as nat
    }

    /// The number of events scheduled so far, the first tick not counted.
    pub closed spec fn events_scheduled(&self) -> nat {
        self.total_event_count as nat
    }

    /// The number of messages handed to the network so far.
    pub closed spec fn messages_sent(&self) -> nat {
        self.total_message_count as nat
    }

    /// The network.
    pub closed spec fn network(&self) -> NetworkView<N::Message> {
        self.network@
    }

    /// The draws made from the random stream so far, in their order.
    pub closed spec fn drawn(&self) -> Seq<Draw> {
        self.rng.drawn()
    }

    /// The invariant checker.
    pub closed spec fn checker(&self) -> I {
        self.invariant_checker
    }

    /// Whether the invariant checker has been handed the seed, the servers
    /// and the clients as they are, and has returned.
    pub open spec fn invariants_checked(&self) -> bool {
        exists|nodes: &[Node<N>], clients: &[C]|
            nodes@ == self.nodes() && clients@ == self.clients() && #[trigger] call_ensures(
                I::check_invariants,
                (&self.checker(), self.configuration().seed, nodes, clients),
                (),
            )
    }

    /// The draws by which the server of index `i` started.
    pub open spec fn start_draws_of_node(&self, i: int) -> Seq<Draw> {
        self.drawn().subrange(
            start_record_length(self.configuration().failure_config, i as nat) as int,
            start_record_length(self.configuration().failure_config, (i + 1) as nat) as int,
        )
    }

    /// The draws by which the partition of the network started.
    pub open spec fn start_draws_of_partition(&self) -> Seq<Draw> {
        self.drawn().skip(
            start_record_length(self.configuration().failure_config, self.nodes().len()) as int,
        )
    }

    /// The instant of the last event taken from the queue.
    pub open spec fn now(&self) -> int {
        self.start().nanos + self.spec_elapsed().nanos
    }

    /// The last instant at which an event can be scheduled: one step after
    /// the end of the time budget.
    pub open spec fn horizon(&self) -> int {
        self.start().nanos + self.configuration().max_sim_time.nanos
            + self.configuration().spec_longest_step()
    }

    /// The instant of the tick that comes after those handled so far.
    pub open spec fn next_tick(&self) -> int {
        self.start().nanos + self.ticks_fired().len() * self.configuration().tick_interval.nanos
    }

    /// What holds of an event that waits in the queue under `key`: its
    /// number has been given out, it is not due before the last event
    /// taken nor after the horizon, and its place is behind that of the last
    /// event taken. If it is a tick, it is the next tick. If it is a message,
    /// the network has handed that message back, under a number that has
    /// been given to a message.
    pub open spec fn waits_well(&self, key: EventTime) -> bool {
        &&& key.offset <= self.events_scheduled()
        &&& self.now() <= key.time.nanos <= self.horizon()
        &&& self.events_taken().len() > 0 ==> self.events_taken().last().0.spec_before(key)
        &&& match self.queue()[key] {
            Event::Tick => key.time.nanos == self.next_tick(),
            Event::Message(sent) => self.network_output().contains(sent.message) && 1
                <= sent.id <= self.messages_sent(),
        }
    }

    /// No tick waits in the queue.
    pub open spec fn no_tick_waits(&self) -> bool {
        forall|key: EventTime| #[trigger]
            self.queue().contains_key(key) ==> !(self.queue()[key] is Tick)
    }

    /// What holds of a simulator between calls.
    pub closed spec fn inv(&self) -> bool {
        &&& self.config.valid()
        &&& self.config.fits(self.start_time)
        &&& self.network.inv()
        &&& self.network@.config == self.config.network_config
        &&& forall|i: int| 0 <= i < self.nodes@.len() ==> (#[trigger] self.nodes@[i])@.wf()
        &&& failed_count(self.nodes@) <= self.nodes@.len() / 2
        &&& self.events.inv()
        &&& self.now() <= self.horizon()
        &&& forall|key: EventTime| #[trigger]
            self.events@.contains_key(key) ==> self.waits_well(key)
        &&& forall|a: EventTime, b: EventTime|
            self.events@.contains_key(a) && self.events@.contains_key(b) && (
            #[trigger] self.events@[a]) is Tick && (#[trigger] self.events@[b]) is Tick ==> a
                == b
        &&& forall|k: int|
            0 <= k < self.fired@.len() ==> (#[trigger] self.fired@[k]).nanos
                == self.start_time.nanos + k * self.config.tick_interval.nanos
        &&& forall|k: int|
            0 <= k < self.fired@.len() ==> (#[trigger] self.fired@[k]).nanos <= self.now()
        &&& forall|i: int, j: int|
            0 <= i < j < self.taken@.len() ==> (#[trigger] self.taken@[i]).0.spec_before(
                (#[trigger] self.taken@[j]).0,
            )
        &&& forall|i: int|
            0 <= i < self.taken@.len() ==> ((#[trigger] self.taken@[i]).1 matches Event::Message(
                sent,
            ) ==> self.delivered@.contains(sent.message) && 1 <= sent.id
                <= self.total_message_count)
        &&& self.rng.drawn().len() > 0
        &&& self.rng.drawn()[0] == (Draw::Seed { seed: self.config.seed })
        &&& self.taken@.len() == self.event_processed_count
        &&& self.taken@.len() > 0 ==> {
            &&& self.taken@.last().0.time.nanos == self.now()
            &&& self.taken@.last().0.offset <= self.total_event_count
        }
    }

    /// Whether the simulator has used up the numbers by which it counts
    /// events and messages.
    pub open spec fn exhausted(&self) -> bool {
        ||| self.events_processed() == usize::MAX
        ||| self.events_scheduled() == usize::MAX
        ||| self.messages_sent() == usize::MAX
    }

    /// What holds of a simulator that has just been set up for `nodes` and
    /// `clients`: the clock stands at the start, the first tick waits there
    /// and nothing else waits, every server runs, and the network is whole
    /// and has no link yet. The random stream has been made from the seed
    /// of the configuration; the servers have drawn their first crashes, in
    /// the order of their indices, and then the network has drawn its first
    /// split.
    pub open spec fn initial(
        &self,
        start_time: Instant,
        nodes: Seq<N>,
        clients: Seq<C>,
        config: Configuration,
        invariant_checker: I,
    ) -> bool {
        &&& self.start() == start_time
        &&& self.configuration() == config
        &&& self.checker() == invariant_checker
        &&& self.spec_elapsed().nanos == 0
        &&& self.events_processed() == 0
        &&& self.events_scheduled() == 0
        &&& self.messages_sent() == 0
        &&& self.ticks_fired().len() == 0
        &&& self.events_taken().len() == 0
        &&& self.network_output() == Set::<N::Message>::empty()
        &&& self.stray() is None
        &&& self.queue() == Map::<EventTime, Event<N::Message>>::empty().insert(
            EventTime { time: start_time, offset: 0 },
            Event::Tick,
        )
        &&& self.clients() == clients
        &&& self.nodes().len() == nodes.len()
        &&& self.drawn()[0] == (Draw::Seed { seed: config.seed })
        &&& self.drawn().len() == start_record_length(config.failure_config, nodes.len())
            + partition_heal_draw_count(config.network_config)
        &&& forall|i: int|
            0 <= i < nodes.len() ==> {
                &&& (#[trigger] self.nodes()[i])@.node == nodes[i]
                &&& node_start_draws(config.failure_config, self.start_draws_of_node(i))
                &&& self.nodes()[i]@.state == node_start_state(
                    start_time,
                    config.failure_config,
                    self.start_draws_of_node(i),
                )
                &&& self.nodes()[i]@.failure_config == config.failure_config
                &&& self.nodes()[i]@.replica_count == nodes.len()
                &&& self.nodes()[i]@.start_time == start_time
            }
        &&& self.network().config == config.network_config
        &&& self.network().simulation_start == start_time
        &&& self.network().links == Map::<(NodeId, NodeId), LinkView<N::Message>>::empty()
        &&& self.network().partitioning.nodes == spec_all_ids(nodes.len(), clients.len())
        &&& partition_heal_draws(config.network_config, self.start_draws_of_partition())
        &&& self.network().partitioning.state == partition_heal_state(
            start_time,
            config.network_config,
            self.start_draws_of_partition(),
        )
    }

    /// Sets up a simulation of `nodes` and `clients` that starts at
    /// `start_time`.
    ///
    /// The configuration must be usable and its time budget must fit the
    /// clock. The servers must give the IDs `Node(0)`, `Node(1)` and so on
    /// in this order, and the clients `Client(0)`, `Client(1)` and so on.
    /// Anything else is refused with the error that names the first of
    /// these that fails.
    pub fn new(
        start_time: Instant,
        nodes: Vec<N>,
        clients: Vec<C>,
        config: Configuration,
        invariant_checker: I,
        sampler: S,
    ) -> (made: Result<Self, SetupError>)
        ensures
            !config.valid() ==> refusal(made) == Some(SetupError::InvalidConfiguration),
            config.valid() && !config.fits(start_time) ==> refusal(made) == Some(
                SetupError::TimeBudgetTooLong,
            ),
            config.valid() && config.fits(start_time) ==> exists|
                node_ids: Seq<NodeId>,
                client_ids: Seq<NodeId>,
            |
                ids_of_nodes(nodes@, node_ids) && ids_of_clients(clients@, client_ids)
                    && match #[trigger] spec_validate(node_ids, client_ids) {
                    Err(error) => refusal(made) == Some(error),
                    Ok(_) => made matches Ok(simulator) && simulator.inv() && simulator.initial(
                        start_time,
                        nodes@,
                        clients@,
                        config,
                        invariant_checker,
                    ),
                },
    {
        if !config.is_valid() {
            return Err(SetupError::InvalidConfiguration);
        }
        if !config.does_fit(start_time) {
            return Err(SetupError::TimeBudgetTooLong);
        }
        let mut rng = SimRng::new(config.seed, sampler);

        let verdict = validate_node_ids(nodes.as_slice(), clients.as_slice());
        if let Err(error) = verdict {
            return Err(error);
        }
        let replica_count = nodes.len();
        let client_count = clients.len();
        let ghost given = nodes@;
        let mut wrapped_nodes: Vec<Node<N>> = Vec::new();
        for node in it: nodes
            invariant
                it.seq() == given,
                replica_count == given.len(),
                wrapped_nodes@.len() == it.index(),
                rng.drawn()[0] == (Draw::Seed { seed: config.seed }),
                rng.drawn().len() == start_record_length(
                    config.failure_config,
                    it.index() as nat,
                ),
                forall|i: int|
                    0 <= i < wrapped_nodes@.len() ==> {
                        &&& (#[trigger] wrapped_nodes@[i])@.wf()
                        &&& wrapped_nodes@[i]@.node == given[i]
                        &&& node_start_draws(
                            config.failure_config,
                            rng.drawn().subrange(
                                start_record_length(config.failure_config, i as nat) as int,
                                start_record_length(
                                    config.failure_config,
                                    (i + 1) as nat,
                                ) as int,
                            ),
                        )
                        &&& wrapped_nodes@[i]@.state == node_start_state(
                            start_time,
                            config.failure_config,
                            rng.drawn().subrange(
                                start_record_length(config.failure_config, i as nat) as int,
                                start_record_length(
                                    config.failure_config,
                                    (i + 1) as nat,
                                ) as int,
                            ),
                        )
                        &&& wrapped_nodes@[i]@.failure_config == config.failure_config
                        &&& wrapped_nodes@[i]@.replica_count == replica_count
                        &&& wrapped_nodes@[i]@.start_time == start_time
                    },
        {
            let ghost before = rng.drawn();
            let ghost index = wrapped_nodes@.len() as int;
            let wrapped = Node::new(
                node,
                config.failure_config,
                &mut rng,
                start_time,
                replica_count,
            );
            assert(rng.drawn()[0] == before[0]);
            wrapped_nodes.push(wrapped);
            proof {
                assert forall|i: int| 0 <= i <= index implies rng.drawn().subrange(
                    #[trigger] start_record_length(config.failure_config, i as nat) as int,
                    start_record_length(config.failure_config, (i + 1) as nat) as int,
                ) =~= if i < index {
                    before.subrange(
                        start_record_length(config.failure_config, i as nat) as int,
                        start_record_length(config.failure_config, (i + 1) as nat) as int,
                    )
                } else {
                    rng.drawn_since(before)
                } by {}
            }
        }

        let ghost started = rng.drawn();
        let ids = all_ids(replica_count, client_count);
        let network = Network::new(start_time, config.network_config, ids, &mut rng);
        proof {
            assert(rng.drawn()[0] == started[0]);
            assert forall|i: int| 0 <= i < replica_count implies rng.drawn().subrange(
                #[trigger] start_record_length(config.failure_config, i as nat) as int,
                start_record_length(config.failure_config, (i + 1) as nat) as int,
            ) =~= started.subrange(
                start_record_length(config.failure_config, i as nat) as int,
                start_record_length(config.failure_config, (i + 1) as nat) as int,
            ) by {}
        }

        let mut events = EventQueue::new();
        events.insert(EventTime { time: start_time, offset: 0 }, Event::Tick);

        let simulator = Simulator {
            start_time,
            network,
            nodes: wrapped_nodes,
            clients,
            events,
            config,
            rng,
            elapsed: Duration::zero(),
            event_processed_count: 0,
            total_event_count: 0,
            total_message_count: 0,
            invariant_checker,
            stray: None,
            fired: Ghost(Seq::empty()),
            delivered: Ghost(Set::empty()),
            taken: Ghost(Seq::empty()),
        };
        proof {
            lemma_failed_count_none(simulator.nodes@);
            assert(simulator.inv());
            assert(simulator.initial(
                start_time,
                given,
                clients@,
                config,
                invariant_checker,
            ));
        }
        Ok(simulator)
    }

    /// The place of the tick that the tick under `key` schedules: one tick
    /// interval later, behind all events scheduled so far.
    pub open spec fn place_of_next_tick(&self, key: EventTime) -> EventTime {
        EventTime {
            time: Instant {
                nanos: (key.time.nanos + self.configuration().tick_interval.nanos) as u64,
            },
            offset: (self.events_scheduled() + 1) as usize,
        }
    }

    /// The queue once the event that waits under `key` has been taken and
    /// handled: without that event, and with the next tick if it is a tick.
    pub open spec fn queue_after_handling(&self, key: EventTime) -> Map<
        EventTime,
        Event<N::Message>,
    > {
        if self.queue()[key] is Tick {
            self.queue().remove(key).insert(self.place_of_next_tick(key), Event::Tick)
        } else {
            self.queue().remove(key)
        }
    }

    /// The number of events scheduled once the event that waits under `key`
    /// has been handled: one more if it is a tick.
    pub open spec fn scheduled_after_handling(&self, key: EventTime) -> nat {
        if self.queue()[key] is Tick {
            self.events_scheduled() + 1
        } else {
            self.events_scheduled()
        }
    }

    /// The draws made since the simulator was `before`.
    pub open spec fn drawn_since(&self, before: Self) -> Seq<Draw> {
        self.drawn().skip(before.drawn().len() as int)
    }

    /// Whether `key` is the first place of the queue: an event waits under
    /// it, and every other event that waits has a later place.
    pub open spec fn first_waits_at(&self, key: EventTime) -> bool {
        &&& self.queue().contains_key(key)
        &&& forall|other: EventTime| #[trigger]
            self.queue().contains_key(other) ==> other == key || key.spec_before(other)
    }

    /// Whether the simulator can take an event from its queue: one waits,
    /// and the numbers by which events are counted are not used up.
    pub open spec fn can_take(&self) -> bool {
        &&& self.events_processed() < usize::MAX
        &&& self.events_scheduled() < usize::MAX
        &&& exists|key: EventTime| self.queue().contains_key(key)
    }

    /// Whether a tick waits in the queue.
    pub open spec fn tick_waits(&self) -> bool {
        exists|key: EventTime| self.queue().contains_key(key) && self.queue()[key] is Tick
    }

    /// Whether the event under `key` lies beyond the time budget.
    pub open spec fn is_late(&self, key: EventTime) -> bool {
        key.time.nanos - self.start().nanos > self.configuration().max_sim_time.nanos
    }

    /// Whether the simulator differs from `before` by the taking of the
    /// event that waited under `key` and by nothing else: the event has left
    /// the queue for the record of events taken, the count of events has
    /// gone up by one and the clock stands at the instant of the event. The
    /// servers, the clients, the network, the random stream and all other
    /// counts and records are as they were.
    pub open spec fn only_took(&self, before: Self, key: EventTime) -> bool {
        &&& self.queue() == before.queue().remove(key)
        &&& self.events_taken() == before.events_taken().push((key, before.queue()[key]))
        &&& self.events_processed() == before.events_processed() + 1
        &&& self.spec_elapsed().nanos == key.time.nanos - before.start().nanos
        &&& self.start() == before.start()
        &&& self.configuration() == before.configuration()
        &&& self.checker() == before.checker()
        &&& self.nodes() == before.nodes()
        &&& self.clients() == before.clients()
        &&& self.network() == before.network()
        &&& self.drawn() == before.drawn()
        &&& self.ticks_fired() == before.ticks_fired()
        &&& self.network_output() == before.network_output()
        &&& self.stray() == before.stray()
        &&& self.events_scheduled() == before.events_scheduled()
        &&& self.messages_sent() == before.messages_sent()
    }

    /// Whether the simulator is as it was when it was `before`: with the
    /// same queue, clock, servers, clients, network, random stream, counts
    /// and records.
    pub open spec fn unchanged(&self, before: Self) -> bool {
        &&& self.queue() == before.queue()
        &&& self.events_taken() == before.events_taken()
        &&& self.events_processed() == before.events_processed()
        &&& self.spec_elapsed() == before.spec_elapsed()
        &&& self.start() == before.start()
        &&& self.configuration() == before.configuration()
        &&& self.checker() == before.checker()
        &&& self.nodes() == before.nodes()
        &&& self.clients() == before.clients()
        &&& self.network() == before.network()
        &&& self.drawn() == before.drawn()
        &&& self.ticks_fired() == before.ticks_fired()
        &&& self.network_output() == before.network_output()
        &&& self.stray() == before.stray()
        &&& self.events_scheduled() == before.events_scheduled()
        &&& self.messages_sent() == before.messages_sent()
    }

    /// Whether the simulator is what one step makes of `before`, where the
    /// step tells `outcome`: `None` where the run goes on, or else how it
    /// ends.
    ///
    /// Where nothing could be taken, nothing has changed and the run ends
    /// with `false`. Otherwise the first event of the queue has been taken
    /// and the clock stands at its instant. Beyond the time budget that is
    /// all, and the run ends with `false`; with every client finished that
    /// is all too, and the run ends with `true`. Otherwise the event has been
    /// handled: the servers have moved as their failure rules and the draws
    /// say, what was sent in answer has gone through the network in its
    /// order, and the deliveries wait in the queue. What the servers and
    /// clients themselves did with the event is not part of this relation.
    pub open spec fn stepped(&self, before: Self, outcome: Option<bool>) -> bool {
        &&& before.inv()
        &&& self.inv()
        &&& self.start() == before.start()
        &&& self.configuration() == before.configuration()
        &&& self.checker() == before.checker()
        &&& self.nodes().len() == before.nodes().len()
        &&& self.clients().len() == before.clients().len()
        &&& before.spec_elapsed().nanos <= self.spec_elapsed().nanos
        &&& before.ticks_fired().is_prefix_of(self.ticks_fired())
        &&& before.network_output().subset_of(self.network_output())
        &&& before.events_taken().is_prefix_of(self.events_taken())
        &&& before.drawn().is_prefix_of(self.drawn())
        &&& failed_count(self.nodes()) <= self.nodes().len() / 2
        &&& !before.can_take() ==> outcome == Some(false) && self.unchanged(before)
        &&& before.can_take() ==> {
            let key = self.events_taken().last().0;
            &&& before.first_waits_at(key)
            &&& self.events_taken() == before.events_taken().push((key, before.queue()[key]))
            &&& self.events_processed() == before.events_processed() + 1
            &&& self.spec_elapsed().nanos == key.time.nanos - before.start().nanos
            &&& forall|other: EventTime|
                other != key && #[trigger] before.queue().contains_key(other)
                    ==> self.queue().contains_key(other) && self.queue()[other]
                    == before.queue()[other]
            &&& if before.is_late(key) {
                outcome == Some(false) && self.only_took(before, key)
            } else {
                &&& outcome == Some(true) ==> {
                    &&& forall|j: int|
                        0 <= j < before.clients().len() ==> reported_finished(
                            #[trigger] before.clients()[j],
                        )
                    &&& self.invariants_checked()
                    &&& self.only_took(before, key)
                }
                &&& outcome != Some(true) ==> {
                    &&& exists|first: int|
                        0 <= first < before.clients().len() && #[trigger] reported_unfinished(
                            before.clients()[first],
                        )
                    &&& before.tick_waits() ==> self.tick_waits()
                    &&& self.events_processed()
                        % before.configuration().check_invariants_frequency as nat == 0
                        ==> self.invariants_checked()
                    &&& exists|emitted: Vec<N::Message>, dispatch: Seq<Draw>|
                        {
                            &&& #[trigger] handled_by(emitted, dispatch, self.drawn_since(before))
                            &&& self.handled(before, key, emitted@, dispatch)
                            &&& outcome is None ==> self.sent_all(before, key, emitted@, dispatch)
                            &&& outcome is Some ==> self.sent_some(before, key, emitted@, dispatch)
                        }
                    &&& outcome == Some(false) ==> self.exhausted()
                }
            }
        }
    }

    /// Whether every message of `emitted` went through the network, in
    /// their order and with the draws made after the first
    /// `dispatch.len()` of the step, and every delivery waits in the queue.
    pub open spec fn sent_all(
        &self,
        before: Self,
        key: EventTime,
        emitted: Seq<N::Message>,
        dispatch: Seq<Draw>,
    ) -> bool {
        &&& self.messages_sent() == before.messages_sent() + emitted.len()
        &&& exists|outs: Seq<Seq<DeliverMessage<N::Message>>>|
            {
                &&& #[trigger] network_sends(
                    before.network(),
                    emitted,
                    key.time,
                    self.drawn_since(before).skip(dispatch.len() as int),
                    self.network(),
                    outs,
                )
                &&& self.queue() == scheduled_all(
                    before.queue_after_handling(key),
                    outs,
                    key.time,
                    before.messages_sent(),
                    before.scheduled_after_handling(key),
                )
                &&& self.events_scheduled() == before.scheduled_after_handling(key)
                    + total_deliveries(outs)
                &&& self.network_output() == before.network_output().union(messages_in(outs))
            }
    }

    /// Whether the first messages of `emitted`, up to some number of them,
    /// went through the network, in their order and with the draws made
    /// after the first `dispatch.len()` of the step. Their deliveries wait
    /// in the queue: all of them for the messages before the last one sent,
    /// and the first of them, up to some number, for the last.
    pub open spec fn sent_some(
        &self,
        before: Self,
        key: EventTime,
        emitted: Seq<N::Message>,
        dispatch: Seq<Draw>,
    ) -> bool {
        exists|count: int, outs: Seq<Seq<DeliverMessage<N::Message>>>, placed: int|
            {
                &&& 0 <= count <= emitted.len()
                &&& #[trigger] network_sends(
                    before.network(),
                    emitted.take(count),
                    key.time,
                    self.drawn_since(before).skip(dispatch.len() as int),
                    self.network(),
                    outs,
                )
                &&& self.network_output() == before.network_output().union(messages_in(outs))
                &&& self.messages_sent() == before.messages_sent() + count
                &&& #[trigger] placed_in(outs, placed)
                &&& self.queue() == scheduled_partly(
                    before.queue_after_handling(key),
                    outs,
                    key.time,
                    before.messages_sent(),
                    before.scheduled_after_handling(key),
                    placed,
                )
                &&& self.events_scheduled() == before.scheduled_after_handling(key)
                    + partly_delivered(outs, placed)
            }
    }

    /// Whether the servers, the clients and the records stand as the
    /// handling of the event that waited under `key` leaves them, where
    /// `emitted` was sent in answer and `dispatch` holds the draws made in
    /// handling it.
    ///
    /// A tick is on record and the next tick waits; every server has moved
    /// as [`server_ticked`] says, and a server that is down has sent
    /// nothing. A message for a server has moved that server as
    /// [`server_got_message`] says and has left the others and the clients
    /// alone; a message for a client has left the servers and the other
    /// clients alone and has drawn nothing. A message for anyone else has
    /// changed nothing but the record of stray destinations.
    pub open spec fn handled(
        &self,
        before: Self,
        key: EventTime,
        emitted: Seq<N::Message>,
        dispatch: Seq<Draw>,
    ) -> bool {
        let now = key.time;
        match before.queue()[key] {
            Event::Tick => {
                &&& self.ticks_fired() == before.ticks_fired().push(now)
                &&& self.stray() == before.stray()
                &&& self.queue().contains_key(before.place_of_next_tick(key))
                &&& self.queue()[before.place_of_next_tick(key)] is Tick
                &&& dispatch.len() == tick_draws_before(
                    before.nodes(),
                    now,
                    before.nodes().len() as int,
                )
                &&& forall|i: int|
                    0 <= i < before.nodes().len() ==> #[trigger] server_ticked(
                        before.nodes(),
                        now,
                        dispatch,
                        self.nodes(),
                        i,
                    )
                &&& exists|servers: Seq<Vec<N::Message>>, clients: Seq<Vec<N::Message>>|
                    {
                        &&& emitted == #[trigger] tick_answer(servers, clients)
                        &&& servers.len() == before.nodes().len()
                        &&& clients.len() == before.clients().len()
                        &&& forall|i: int| #[trigger]
                            has_part(servers, i) ==> (self.nodes()[i].spec_is_failed()
                                ==> servers[i]@.len() == 0 && self.nodes()[i]@.node
                                == before.nodes()[i]@.node)
                    }
            },
            Event::Message(sent) => {
                &&& self.ticks_fired() == before.ticks_fired()
                &&& exists|to: NodeId| #[trigger]
                    reported_destination(sent.message, to) && match to {
                        NodeId::Node(i) if i < before.nodes().len() => {
                            &&& self.clients() == before.clients()
                            &&& self.stray() == before.stray()
                            &&& server_got_message(
                                before.nodes(),
                                i as int,
                                now,
                                dispatch,
                                self.nodes(),
                                emitted,
                            )
                        },
                        NodeId::Client(i) if i < before.clients().len() => {
                            &&& self.nodes() == before.nodes()
                            &&& self.stray() == before.stray()
                            &&& dispatch.len() == 0
                            &&& forall|j: int|
                                0 <= j < before.clients().len() && j != i
                                    ==> #[trigger] self.clients()[j] == before.clients()[j]
                        },
                        _ => {
                            &&& self.nodes() == before.nodes()
                            &&& self.clients() == before.clients()
                            &&& self.stray() == first_stray(before.stray(), to)
                            &&& dispatch.len() == 0
                            &&& emitted.len() == 0
                        },
                    }
            },
        }
    }

    /// Takes the first event from the queue and handles it. Tells how the
    /// run ends with it, if it does.
    ///
    /// Where no event waits or the numbers for events are used up, nothing
    /// changes and the run ends with `false`. Otherwise the first event of
    /// the queue is taken and the clock moves to its instant. If that lies
    /// beyond the time budget, the run ends with `false` and the event is
    /// not handled. If every client says that it has finished, the
    /// invariants are checked, the run ends with `true`, and the event is not
    /// handled either. Otherwise the event is handled, the invariants are
    /// checked if the stride asks for it, and what was sent goes through the
    /// network, which schedules the deliveries. The run then goes on, unless
    /// the numbers for events or messages ran out on the way.
    ///
    /// [`Self::stepped`] says all of this but what the servers and clients
    /// themselves did with the event; the clauses behind it say that too.
    #[verifier::rlimit(60)]
    pub fn step(&mut self) -> (outcome: Option<bool>)
        requires
            old(self).inv(),
        ensures
            final(self).inv(),
            final(self).start() == old(self).start(),
            final(self).configuration() == old(self).configuration(),
            final(self).checker() == old(self).checker(),
            final(self).nodes().len() == old(self).nodes().len(),
            final(self).clients().len() == old(self).clients().len(),
            old(self).spec_elapsed().nanos <= final(self).spec_elapsed().nanos,
            old(self).ticks_fired().is_prefix_of(final(self).ticks_fired()),
            old(self).network_output().subset_of(final(self).network_output()),
            old(self).events_taken().is_prefix_of(final(self).events_taken()),
            old(self).drawn().is_prefix_of(final(self).drawn()),
            failed_count(final(self).nodes()) <= final(self).nodes().len() / 2,
            final(self).stepped(*old(self), outcome),
            !old(self).can_take() ==> outcome == Some(false) && final(self).unchanged(
                *old(self),
            ),
            old(self).can_take() ==> {
                let key = final(self).events_taken().last().0;
                &&& old(self).first_waits_at(key)
                &&& final(self).events_taken() == old(self).events_taken().push(
                    (key, old(self).queue()[key]),
                )
                &&& final(self).events_processed() == old(self).events_processed() + 1
                &&& final(self).spec_elapsed().nanos == key.time.nanos - old(self).start().nanos
                &&& forall|other: EventTime|
                    other != key && #[trigger] old(self).queue().contains_key(other)
                        ==> final(self).queue().contains_key(other) && final(self).queue()[other]
                        == old(self).queue()[other]
                &&& if old(self).is_late(key) {
                    outcome == Some(false) && final(self).only_took(*old(self), key)
                } else {
                    &&& outcome == Some(true) ==> {
                        &&& forall|j: int|
                            0 <= j < old(self).clients().len() ==> reported_finished(
                                #[trigger] old(self).clients()[j],
                            )
                        &&& final(self).invariants_checked()
                        &&& final(self).only_took(*old(self), key)
                    }
                    &&& outcome != Some(true) ==> {
                        &&& exists|first: int|
                            0 <= first < old(self).clients().len()
                                && #[trigger] reported_unfinished(
                                old(self).clients()[first],
                            )
                        &&& old(self).tick_waits() ==> final(self).tick_waits()
                        &&& final(self).events_processed()
                            % old(self).configuration().check_invariants_frequency as nat == 0
                            ==> final(self).invariants_checked()
                        &&& exists|emitted: Vec<N::Message>, dispatch: Seq<Draw>|
                            {
                                let now = key.time;
                                &&& #[trigger] handled_by(
                                    emitted,
                                    dispatch,
                                    final(self).drawn_since(*old(self)),
                                )
                                &&& outcome is None ==> final(self).messages_sent()
                                    == old(self).messages_sent() + emitted@.len()
                                &&& outcome is None ==> exists|
                                    outs: Seq<Seq<DeliverMessage<N::Message>>>,
                                |
                                    {
                                        &&& #[trigger] network_sends(
                                            old(self).network(),
                                            emitted@,
                                            now,
                                            final(self).drawn_since(*old(self)).skip(
                                                dispatch.len() as int,
                                            ),
                                            final(self).network(),
                                            outs,
                                        )
                                        &&& final(self).queue() == scheduled_all(
                                            old(self).queue_after_handling(key),
                                            outs,
                                            now,
                                            old(self).messages_sent(),
                                            old(self).scheduled_after_handling(key),
                                        )
                                        &&& final(self).events_scheduled()
                                            == old(self).scheduled_after_handling(key) + total_deliveries(outs)
                                        &&& final(self).network_output()
                                            == old(self).network_output().union(messages_in(outs))
                                    }
                                &&& outcome is Some ==> exists|
                                    count: int,
                                    outs: Seq<Seq<DeliverMessage<N::Message>>>,
                                    placed: int,
                                |
                                    {
                                        &&& 0 <= count <= emitted@.len()
                                        &&& #[trigger] network_sends(
                                            old(self).network(),
                                            emitted@.take(count),
                                            now,
                                            final(self).drawn_since(*old(self)).skip(
                                                dispatch.len() as int,
                                            ),
                                            final(self).network(),
                                            outs,
                                        )
                                        &&& final(self).network_output()
                                            == old(self).network_output().union(messages_in(outs))
                                        &&& final(self).messages_sent()
                                            == old(self).messages_sent() + count
                                        &&& #[trigger] placed_in(outs, placed)
                                        &&& final(self).queue() == scheduled_partly(
                                            old(self).queue_after_handling(key),
                                            outs,
                                            now,
                                            old(self).messages_sent(),
                                            old(self).scheduled_after_handling(key),
                                            placed,
                                        )
                                        &&& final(self).events_scheduled()
                                            == old(self).scheduled_after_handling(key)
                                            + partly_delivered(outs, placed)
                                    }
                                &&& match old(self).queue()[key] {
                                Event::Tick => {
                                    &&& final(self).ticks_fired()
                                        == old(self).ticks_fired().push(now)
                                    &&& final(self).stray() == old(self).stray()
                                    &&& final(self).queue().contains_key(
                                        EventTime {
                                            time: Instant {
                                                nanos: (now.nanos + old(self).configuration().tick_interval.nanos) as u64,
                                            },
                                            offset: (old(self).events_scheduled() + 1) as usize,
                                        },
                                    )
                                    &&& final(self).queue()[EventTime {
                                        time: Instant {
                                            nanos: (now.nanos + old(self).configuration().tick_interval.nanos) as u64,
                                        },
                                        offset: (old(self).events_scheduled() + 1) as usize,
                                    }] is Tick
                                    &&& dispatch.len()
                                        == tick_draws_before(old(self).nodes(), now, old(self).nodes().len() as int)
                                    &&& forall|i: int|
                                        0 <= i < old(self).nodes().len()
                                            ==> #[trigger] server_ticked(
                                            old(self).nodes(),
                                            now,
                                            dispatch,
                                            final(self).nodes(),
                                            i,
                                        )
                                    &&& exists|servers: Seq<Vec<N::Message>>, clients: Seq<Vec<N::Message>>|
                                        {
                                            &&& emitted@ == #[trigger] tick_answer(servers, clients)
                                            &&& servers.len() == old(self).nodes().len()
                                            &&& clients.len() == old(self).clients().len()
                                            &&& forall|i: int| #[trigger]
                                                has_part(servers, i) ==> {
                                                    &&& final(self).nodes()[i].spec_is_failed()
                                                        ==> servers[i]@.len() == 0
                                                        && final(self).nodes()[i]@.node
                                                        == old(self).nodes()[i]@.node
                                                    &&& !final(self).nodes()[i].spec_is_failed()
                                                        && old(self).nodes()[i]@.state.spec_pending(now, false)
                                                        != NodeTransition::Restart
                                                            ==> exists|node: &mut N|
                                                        *node == old(self).nodes()[i]@.node
                                                            && *final(node)
                                                            == final(self).nodes()[i]@.node
                                                            && #[trigger] call_ensures(
                                                            N::tick,
                                                            (node, now),
                                                            servers[i],
                                                        )
                                                    &&& !final(self).nodes()[i].spec_is_failed()
                                                        && old(self).nodes()[i]@.state.spec_pending(now, false)
                                                        == NodeTransition::Restart
                                                            ==> exists|first: &mut N, nonce: u64, node: &mut N|
                                                        *first == old(self).nodes()[i]@.node
                                                            && #[trigger] call_ensures(
                                                            N::recover,
                                                            (first, now, nonce, old(self).nodes()[i]@.replica_count),
                                                            (),
                                                        ) && *node == *final(first) && *final(node)
                                                            == final(self).nodes()[i]@.node
                                                            && #[trigger] call_ensures(N::tick, (node, now), servers[i])
                                                }
                                            &&& forall|j: int| #[trigger]
                                                has_part(clients, j) ==> {
                                                    exists|client: &mut C|
                                                        *client == old(self).clients()[j]
                                                            && *final(client)
                                                            == final(self).clients()[j]
                                                            && #[trigger] call_ensures(
                                                            C::tick,
                                                            (client, now),
                                                            clients[j],
                                                        )
                                                }
                                        }
                                },
                                Event::Message(sent) => {
                                    &&& final(self).ticks_fired() == old(self).ticks_fired()
                                    &&& exists|to: NodeId| #[trigger]
                                        reported_destination(sent.message, to) && match to {
                                            NodeId::Node(i) if i < old(self).nodes().len() => {
                                                &&& final(self).clients() == old(self).clients()
                                                &&& final(self).stray() == old(self).stray()
                                                &&& server_got_message(
                                                    old(self).nodes(),
                                                    i as int,
                                                    now,
                                                    dispatch,
                                                    final(self).nodes(),
                                                    emitted@,
                                                )
                                                &&& !final(self).nodes()[i as int].spec_is_failed()
                                                    && old(self).nodes()[i as int]@.state.spec_pending(
                                                    now,
                                                    failed_count(old(self).nodes()) < old(self).nodes().len() / 2,
                                                ) != NodeTransition::Restart
                                                    ==> exists|node: &mut N|
                                                    *node == old(self).nodes()[i as int]@.node
                                                        && *final(node)
                                                        == final(self).nodes()[i as int]@.node
                                                        && #[trigger] call_ensures(
                                                        N::process_message,
                                                        (node, sent.message, now),
                                                        emitted,
                                                    )
                                                &&& !final(self).nodes()[i as int].spec_is_failed()
                                                    && old(self).nodes()[i as int]@.state.spec_pending(
                                                    now,
                                                    failed_count(old(self).nodes()) < old(self).nodes().len() / 2,
                                                ) == NodeTransition::Restart ==> exists|
                                                    first: &mut N,
                                                    nonce: u64,
                                                    node: &mut N,
                                                |
                                                    *first == old(self).nodes()[i as int]@.node
                                                        && nonce == dispatch.last()->bits
                                                        && #[trigger] call_ensures(
                                                        N::recover,
                                                        (first, now, nonce, old(self).nodes()[i as int]@.replica_count),
                                                        (),
                                                    ) && *node == *final(first) && *final(node)
                                                        == final(self).nodes()[i as int]@.node
                                                        && #[trigger] call_ensures(
                                                        N::process_message,
                                                        (node, sent.message, now),
                                                        emitted,
                                                    )
                                            },
                                            NodeId::Client(i) if i < old(self).clients().len() => {
                                                &&& final(self).nodes() == old(self).nodes()
                                                &&& final(self).stray() == old(self).stray()
                                                &&& dispatch.len() == 0
                                                &&& forall|j: int|
                                                    0 <= j < old(self).clients().len() && j != i
                                                        ==> #[trigger] final(self).clients()[j]
                                                        == old(self).clients()[j]
                                                &&& exists|client: &mut C|
                                                    *client == old(self).clients()[i as int]
                                                        && *final(client)
                                                        == final(self).clients()[i as int]
                                                        && #[trigger] call_ensures(
                                                        C::process_message,
                                                        (client, sent.message, now),
                                                        emitted,
                                                    )
                                            },
                                            _ => {
                                                &&& final(self).nodes() == old(self).nodes()
                                                &&& final(self).clients() == old(self).clients()
                                                &&& final(self).stray() == first_stray(
                                                    old(self).stray(),
                                                    to,
                                                )
                                                &&& dispatch.len() == 0
                                                &&& emitted@.len() == 0
                                            },
                                        }
                                },
                            }
                            }
                    }
                    &&& outcome == Some(false) ==> final(self).exhausted()
                }
            },
    {
        if self.event_processed_count == usize::MAX || self.total_event_count == usize::MAX {
            return Some(false);
        }
        let ghost waiting = self.events@;
        let first = self.events.pop_first();
        match first {
            None => {
                assert(!old(self).can_take());
                return Some(false);
            },
            Some((event_time, event)) => {
                self.event_processed_count += 1;
                let now = event_time.time;
                proof {
                    assert(waiting.contains_key(event_time));
                }
                self.elapsed = now.duration_since(self.start_time);
                let ghost taken_before = self.taken@;
                self.taken = Ghost(self.taken@.push((event_time, event)));
                proof {
                    assert(old(self).taken@.is_prefix_of(taken_before));
                    assert(taken_before.is_prefix_of(self.taken@));
                    assert forall|i: int, j: int| 0 <= i < j < self.taken@.len() implies (
                    #[trigger] self.taken@[i]).0.spec_before((#[trigger] self.taken@[j]).0) by {
                        if j == taken_before.len() && i < taken_before.len() - 1 {
                            assert(taken_before[i].0.spec_before(taken_before.last().0));
                        }
                    }
                    assert forall|key: EventTime| #[trigger]
                        self.events@.contains_key(key) implies self.waits_well(key) by {
                        assert(waiting.contains_key(key));
                        assert(key == event_time || event_time.spec_before(key));
                    }
                }
                assert(old(self).can_take());
                assert(old(self).first_waits_at(event_time));
                assert(self.taken@.last().0 == event_time);
                if self.elapsed.nanos > self.config.max_sim_time.nanos {
                    return Some(false);
                }
                if self.all_clients_finished() {
                    self.check_invariants();
                    return Some(true);
                }
                let ghost unfinished: int = choose|first: int|
                    0 <= first < self.clients@.len() && #[trigger] reported_unfinished(
                        self.clients@[first],
                    );
                assert(self.clients@ == old(self).clients@);
                proof {
                    if event is Tick {
                        assert forall|key: EventTime| #[trigger]
                            self.events@.contains_key(key) implies !(self.events@[key]
                            is Tick) by {
                            assert(waiting.contains_key(key));
                        }
                    }
                }
                let ghost fired_before = self.fired@;
                let ghost remaining = self.events@;
                assert(remaining == old(self).events@.remove(event_time));
                assert(!old(self).is_late(event_time));
                let messages = self.handle_event(now, event);
                let ghost emitted = messages;
                let ghost dispatch = self.rng.drawn_since(old(self).rng.drawn());
                let ghost handled = *self;
                assert(self.network@ == old(self).network@);
                proof {
                    assert(fired_before.is_prefix_of(self.fired@));
                    if old(self).tick_waits() {
                        if event is Tick {
                            let next = EventTime {
                                time: Instant {
                                    nanos: (now.nanos + self.config.tick_interval.nanos) as u64,
                                },
                                offset: self.total_event_count,
                            };
                            assert(self.events@.contains_key(next) && self.events@[next] is Tick);
                        } else {
                            let tick = choose|key: EventTime|
                                waiting.contains_key(key) && waiting[key] is Tick;
                            assert(remaining.contains_key(tick));
                            assert(self.events@.contains_key(tick) && self.events@[tick] is Tick);
                        }
                    }
                }
                if self.event_processed_count % self.config.check_invariants_frequency == 0 {
                    self.check_invariants();
                }
                let ghost checked = *self;
                assert(self.event_processed_count % self.config.check_invariants_frequency == 0
                    ==> checked.invariants_checked());
                if !self.send_messages(messages, now) {
                    proof {
                        let key = self.taken@.last().0;
                        assert(key == event_time);
                        assert(old(self).first_waits_at(key));
                        assert(self.taken@ == old(self).taken@.push((key, old(self).queue()[key])));
                        assert forall|other: EventTime|
                            other != key && #[trigger] old(self).queue().contains_key(other)
                                implies self.queue().contains_key(
                            other,
                        ) && self.queue()[other] == old(self).queue()[other] by {
                            assert(remaining.contains_key(other));
                            assert(handled.events@.contains_key(other) && handled.events@[other]
                                == remaining[other]);
                        }
                        assert(reported_unfinished(old(self).clients()[unfinished]));
                        assert(old(self).tick_waits() ==> self.tick_waits());
                        assert(self.nodes() == handled.nodes@);
                        assert(self.clients() == handled.clients@);
                        assert(dispatch =~= self.drawn_since(*old(self)).take(dispatch.len() as int));
                        if event is Tick {
                            let next = EventTime {
                                time: Instant { nanos: (now.nanos + self.config.tick_interval.nanos) as u64 },
                                offset: (old(self).total_event_count + 1) as usize,
                            };
                            assert(handled.events@.contains_key(next)
                                && handled.events@[next] is Tick);
                            assert(self.events@.contains_key(next) && self.events@[next] is Tick);
                        }
                        assert(handled_by(emitted, dispatch, self.drawn_since(*old(self))));
                        assert(self.nodes() == checked.nodes() && self.clients()
                            == checked.clients());
                        assert(self.event_processed_count % self.config.check_invariants_frequency
                            == 0
                            ==> self.invariants_checked());
                        assert(self.drawn_since(*old(self)).skip(dispatch.len() as int)
                            =~= self.rng.drawn_since(handled.rng.drawn()));
                        let (count, outs, placed) = choose|
                            count: int,
                            outs: Seq<Seq<DeliverMessage<N::Message>>>,
                            placed: int,
                        |
                            0 <= count <= emitted@.len() && #[trigger] network_sends(
                                handled.network@,
                                emitted@.take(count),
                                now,
                                self.rng.drawn_since(handled.rng.drawn()),
                                self.network@,
                                outs,
                            ) && self.delivered@ == handled.delivered@.union(messages_in(outs))
                                && self.total_message_count == handled.total_message_count
                                + count && #[trigger] placed_in(outs, placed) && self.events@
                                == scheduled_partly(
                                handled.events@,
                                outs,
                                now,
                                handled.total_message_count as nat,
                                handled.total_event_count as nat,
                                placed,
                            ) && self.total_event_count == handled.total_event_count
                                + partly_delivered(outs, placed);
                        assert(handled.events@ =~= old(self).queue_after_handling(event_time));
                        assert(handled.total_event_count == old(self).scheduled_after_handling(
                            event_time,
                        ));
                        assert(handled.total_message_count == old(self).messages_sent());
                        assert(network_sends(
                            old(self).network(),
                            emitted@.take(count),
                            now,
                            self.drawn_since(*old(self)).skip(dispatch.len() as int),
                            self.network(),
                            outs,
                        ));
                    }
                    return Some(false);
                }
                proof {
                    let key = self.taken@.last().0;
                    assert(key == event_time);
                    assert(old(self).first_waits_at(key));
                    assert(self.taken@ == old(self).taken@.push((key, old(self).queue()[key])));
                    assert forall|other: EventTime|
                        other != key && #[trigger] old(self).queue().contains_key(other)
                            implies self.queue().contains_key(
                        other,
                    ) && self.queue()[other] == old(self).queue()[other] by {
                        assert(remaining.contains_key(other));
                        assert(handled.events@.contains_key(other) && handled.events@[other]
                            == remaining[other]);
                    }
                    assert(reported_unfinished(old(self).clients()[unfinished]));
                    assert(old(self).tick_waits() ==> self.tick_waits());
                    assert(self.nodes() == handled.nodes@);
                    assert(self.clients() == handled.clients@);
                    assert(dispatch =~= self.drawn_since(*old(self)).take(dispatch.len() as int));
                    if event is Tick {
                        let next = EventTime {
                            time: Instant { nanos: (now.nanos + self.config.tick_interval.nanos) as u64 },
                            offset: (old(self).total_event_count + 1) as usize,
                        };
                        assert(handled.events@.contains_key(next) && handled.events@[next] is Tick);
                        assert(self.events@.contains_key(next) && self.events@[next] is Tick);
                    }
                    assert(handled_by(emitted, dispatch, self.drawn_since(*old(self))));
                    assert(self.nodes() == checked.nodes() && self.clients() == checked.clients());
                    assert(self.event_processed_count % self.config.check_invariants_frequency == 0
                        ==> self.invariants_checked());
                    assert(self.drawn_since(*old(self)).skip(dispatch.len() as int)
                        =~= self.rng.drawn_since(handled.rng.drawn()));
                    let outs = choose|outs: Seq<Seq<DeliverMessage<N::Message>>>|
                        #[trigger] network_sends(
                            handled.network@,
                            emitted@,
                            now,
                            self.rng.drawn_since(handled.rng.drawn()),
                            self.network@,
                            outs,
                        ) && self.delivered@ == handled.delivered@.union(messages_in(outs))
                            && self.events@ == scheduled_all(
                            handled.events@,
                            outs,
                            now,
                            handled.total_message_count as nat,
                            handled.total_event_count as nat,
                        ) && self.total_event_count == handled.total_event_count
                            + total_deliveries(outs);
                    assert(handled.events@ =~= old(self).queue_after_handling(event_time));
                    assert(handled.total_event_count == old(self).scheduled_after_handling(
                        event_time,
                    ));
                    assert(handled.total_message_count == old(self).messages_sent());
                    assert(network_sends(
                        old(self).network(),
                        emitted@,
                        now,
                        self.drawn_since(*old(self)).skip(dispatch.len() as int),
                        self.network(),
                        outs,
                    ));
                }
                return None;
            },
        }
    }

    /// Sends `messages` through the network at `now`, each under the next
    /// number and in their order, and schedules what the network returns
    /// for them. Tells whether all were sent and scheduled; if not, the
    /// numbers for messages or events ran out on the way.
    fn send_messages(&mut self, messages: Vec<N::Message>, now: Instant) -> (done: bool)
        requires
            old(self).inv(),
            now.nanos == old(self).now(),
            old(self).elapsed.nanos <= old(self).config.max_sim_time.nanos,
        ensures
            final(self).inv(),
            final(self).start_time == old(self).start_time,
            final(self).config == old(self).config,
            final(self).invariant_checker == old(self).invariant_checker,
            final(self).elapsed == old(self).elapsed,
            final(self).nodes == old(self).nodes,
            final(self).clients == old(self).clients,
            final(self).fired == old(self).fired,
            final(self).stray == old(self).stray,
            final(self).taken == old(self).taken,
            final(self).event_processed_count == old(self).event_processed_count,
            old(self).rng.drawn().is_prefix_of(final(self).rng.drawn()),
            old(self).delivered@.subset_of(final(self).delivered@),
            forall|key: EventTime| #[trigger]
                old(self).events@.contains_key(key) ==> final(self).events@.contains_key(key)
                    && final(self).events@[key] == old(self).events@[key],
            !done ==> final(self).exhausted(),
            !done ==> exists|
                count: int,
                outs: Seq<Seq<DeliverMessage<N::Message>>>,
                placed: int,
            |
                {
                    &&& 0 <= count <= messages@.len()
                    &&& #[trigger] network_sends(
                        old(self).network@,
                        messages@.take(count),
                        now,
                        final(self).rng.drawn_since(old(self).rng.drawn()),
                        final(self).network@,
                        outs,
                    )
                    &&& final(self).delivered@ == old(self).delivered@.union(messages_in(outs))
                    &&& final(self).total_message_count == old(self).total_message_count + count
                    &&& #[trigger] placed_in(outs, placed)
                    &&& final(self).events@ == scheduled_partly(
                        old(self).events@,
                        outs,
                        now,
                        old(self).total_message_count as nat,
                        old(self).total_event_count as nat,
                        placed,
                    )
                    &&& final(self).total_event_count == old(self).total_event_count
                        + partly_delivered(outs, placed)
                },
            done ==> {
                &&& final(self).total_message_count == old(self).total_message_count
                    + messages@.len()
                &&& exists|outs: Seq<Seq<DeliverMessage<N::Message>>>|
                    {
                        &&& #[trigger] network_sends(
                            old(self).network@,
                            messages@,
                            now,
                            final(self).rng.drawn_since(old(self).rng.drawn()),
                            final(self).network@,
                            outs,
                        )
                        &&& final(self).delivered@ == old(self).delivered@.union(
                            messages_in(outs),
                        )
                        &&& final(self).events@ == scheduled_all(
                            old(self).events@,
                            outs,
                            now,
                            old(self).total_message_count as nat,
                            old(self).total_event_count as nat,
                        )
                        &&& final(self).total_event_count == old(self).total_event_count
                            + total_deliveries(outs)
                    }
            },
    {
        let ghost all = messages@;
        let ghost mut outs: Seq<Seq<DeliverMessage<N::Message>>> = Seq::empty();
        let ghost mut sent_so_far: nat = 0;
        proof {
            assert(self.rng.drawn_since(old(self).rng.drawn()) =~= Seq::<Draw>::empty());
            assert(self.delivered@ =~= old(self).delivered@.union(messages_in(outs)));
        }
        for msg in it: messages
            invariant
                it.seq() == all,
                sent_so_far == it.index(),
                self.inv(),
                self.start_time == old(self).start_time,
                self.config == old(self).config,
                self.invariant_checker == old(self).invariant_checker,
                self.elapsed == old(self).elapsed,
                self.nodes == old(self).nodes,
                self.clients == old(self).clients,
                self.fired == old(self).fired,
                self.stray == old(self).stray,
                self.taken == old(self).taken,
                self.event_processed_count == old(self).event_processed_count,
                old(self).rng.drawn().is_prefix_of(self.rng.drawn()),
                old(self).delivered@.subset_of(self.delivered@),
                forall|key: EventTime| #[trigger]
                    old(self).events@.contains_key(key) ==> self.events@.contains_key(key)
                        && self.events@[key] == old(self).events@[key],
                now.nanos == self.now(),
                self.elapsed.nanos <= self.config.max_sim_time.nanos,
                self.total_message_count == old(self).total_message_count + sent_so_far,
                outs.len() == sent_so_far,
                self.delivered@ == old(self).delivered@.union(messages_in(outs)),
                self.events@ == scheduled_all(
                    old(self).events@,
                    outs,
                    now,
                    old(self).total_message_count as nat,
                    old(self).total_event_count as nat,
                ),
                self.total_event_count == old(self).total_event_count + total_deliveries(outs),
                network_sends(
                    old(self).network@,
                    all.take(sent_so_far as int),
                    now,
                    self.rng.drawn_since(old(self).rng.drawn()),
                    self.network@,
                    outs,
                ),
        {
            if self.total_message_count == usize::MAX {
                proof {
                    let placed = if outs.len() == 0 {
                        0
                    } else {
                        outs.last().len() as int
                    };
                    if outs.len() > 0 {
                        assert(outs.last().take(placed) =~= outs.last());
                    }
                    assert(placed_in(outs, placed));
                    assert(self.events@ == scheduled_partly(
                        old(self).events@,
                        outs,
                        now,
                        old(self).total_message_count as nat,
                        old(self).total_event_count as nat,
                        placed,
                    ));
                }
                return false;
            }
            self.total_message_count += 1;
            let message_id = self.total_message_count;
            let ghost outs_before = outs;
            let ghost queue_before = self.events@;
            let ghost offset = self.total_event_count as nat;
            let ghost network_before = self.network@;
            let ghost drawn_before = self.rng.drawn();
            let delivered_msgs = self.network.send(msg, now, &mut self.rng);
            let ghost delivered = delivered_msgs@;
            let ghost network_after = self.network@;
            let ghost drawn_after = self.rng.drawn();
            self.delivered = Ghost(self.delivered@.union(messages_of(delivered)));
            proof {
                let (from, to) = choose|from: NodeId, to: NodeId|
                    reported_source(msg, from) && reported_destination(msg, to)
                        && #[trigger] network_send(
                        network_before,
                        msg,
                        from,
                        to,
                        now,
                        self.rng.drawn_since(drawn_before),
                        network_after,
                        delivered,
                    );
                let sending = all.take(sent_so_far as int + 1);
                let draws = self.rng.drawn_since(old(self).rng.drawn());
                let earlier = drawn_before.len() - old(self).rng.drawn().len();
                assert(msg == all[sent_so_far as int]);
                assert(sending.last() == msg);
                assert(sending.drop_last() =~= all.take(sent_so_far as int));
                assert(draws.take(earlier) =~= drawn_before.skip(
                    old(self).rng.drawn().len() as int,
                ));
                assert(draws.skip(earlier) =~= self.rng.drawn_since(drawn_before));
                assert(outs.push(delivered).drop_last() =~= outs);
                assert(network_send(
                    network_before,
                    sending.last(),
                    from,
                    to,
                    now,
                    draws.skip(earlier),
                    network_after,
                    outs.push(delivered).last(),
                ));
                outs = outs.push(delivered);
                assert(network_sends(old(self).network@, sending, now, draws, network_after, outs));
                assert(self.delivered@ =~= old(self).delivered@.union(messages_in(outs)));
            }
            for del_msg in each: delivered_msgs
                invariant
                    each.seq() == delivered,
                    forall|i: int|
                        0 <= i < delivered.len() ==> self.config.network_config.possible_delay(
                            (#[trigger] delivered[i]).delay,
                        ),
                    forall|i: int|
                        0 <= i < delivered.len() ==> self.delivered@.contains(
                            (#[trigger] delivered[i]).message,
                        ),
                    self.inv(),
                    self.start_time == old(self).start_time,
                    self.config == old(self).config,
                    self.invariant_checker == old(self).invariant_checker,
                    self.elapsed == old(self).elapsed,
                    self.nodes == old(self).nodes,
                    self.clients == old(self).clients,
                    self.fired == old(self).fired,
                    self.stray == old(self).stray,
                    self.taken == old(self).taken,
                    self.event_processed_count == old(self).event_processed_count,
                    old(self).rng.drawn().is_prefix_of(self.rng.drawn()),
                    old(self).delivered@.subset_of(self.delivered@),
                    forall|key: EventTime| #[trigger]
                        old(self).events@.contains_key(key) ==> self.events@.contains_key(key)
                            && self.events@[key] == old(self).events@[key],
                    now.nanos == self.now(),
                    self.elapsed.nanos <= self.config.max_sim_time.nanos,
                    self.total_message_count == old(self).total_message_count + sent_so_far + 1,
                    1 <= message_id <= self.total_message_count,
                    self.network@ == network_after,
                    self.rng.drawn() == drawn_after,
                    message_id == old(self).total_message_count + sent_so_far + 1,
                    outs == outs_before.push(delivered),
                    outs_before.len() == sent_so_far,
                    sent_so_far < all.len(),
                    all == messages@,
                    self.delivered@ == old(self).delivered@.union(messages_in(outs)),
                    offset == old(self).total_event_count + total_deliveries(outs_before),
                    queue_before == scheduled_all(
                        old(self).events@,
                        outs_before,
                        now,
                        old(self).total_message_count as nat,
                        old(self).total_event_count as nat,
                    ),
                    self.total_event_count == offset + each.index(),
                    self.events@ == scheduled(
                        queue_before,
                        delivered.take(each.index() as int),
                        now,
                        message_id,
                        offset,
                    ),
                    network_sends(
                        old(self).network@,
                        all.take(sent_so_far as int + 1),
                        now,
                        drawn_after.skip(old(self).rng.drawn().len() as int),
                        network_after,
                        outs,
                    ),
            {
                if self.total_event_count == usize::MAX {
                    proof {
                        assert(network_sends(
                            old(self).network@,
                            all.take(sent_so_far as int + 1),
                            now,
                            self.rng.drawn_since(old(self).rng.drawn()),
                            self.network@,
                            outs,
                        ));
                        let placed = each.index() as int;
                        assert(outs.drop_last() =~= outs_before);
                        assert(outs.last() == delivered);
                        assert(placed_in(outs, placed));
                        assert(self.events@ == scheduled_partly(
                            old(self).events@,
                            outs,
                            now,
                            old(self).total_message_count as nat,
                            old(self).total_event_count as nat,
                            placed,
                        ));
                    }
                    return false;
                }
                let at = Instant { nanos: now.nanos + del_msg.delay.nanos };
                let ghost placed = each.index() as int;
                self.push_event(
                    at,
                    Event::Message(SimulationMessage::new(del_msg.message, message_id)),
                );
                proof {
                    let next = delivered.take(placed + 1);
                    assert(next.drop_last() =~= delivered.take(placed));
                    assert(next.last() == delivered[placed]);
                    assert(del_msg == delivered[placed]);
                }
            }
            proof {
                assert(delivered.take(delivered.len() as int) =~= delivered);
                assert(outs.drop_last() =~= outs_before);
                assert(outs.last() == delivered);
                sent_so_far = sent_so_far + 1;
            }
        }
        proof {
            assert(all.take(sent_so_far as int) =~= all);
        }
        true
    }

    /// Whether the step from `states[k]` to `states[k + 1]` lets the run go
    /// on.
    pub open spec fn goes_on(states: Seq<Self>, k: int) -> bool {
        states[k + 1].stepped(states[k], None)
    }

    /// Whether `states` is a row of steps that ends with `finished`: each
    /// state but the first is what one step makes of the state before it,
    /// every step but the last lets the run go on, and the last ends it with
    /// `finished`.
    pub open spec fn row_of_steps(states: Seq<Self>, finished: bool) -> bool {
        &&& states.len() >= 2
        &&& forall|k: int| 0 <= k < states.len() - 2 ==> #[trigger] Self::goes_on(states, k)
        &&& states.last().stepped(states[states.len() - 2], Some(finished))
    }

    /// Runs the simulation and tells whether every client finished within
    /// the time budget.
    ///
    /// The run is a row of steps, up to the first that ends it. So events
    /// are handled in the order of the queue. The run ends with `true` as
    /// soon as an event within the budget finds every client finished, after
    /// one more check of the invariants. It ends with `false` as soon as an
    /// event lies beyond the time budget, and also where no event is left or
    /// the numbers for events and messages are used up. While a tick waits,
    /// an event is always left.
    ///
    /// A message whose destination is no server and no client of the
    /// simulation is dropped when it is due, and the run goes on;
    /// [`Self::stray_destination`] tells the first such destination.
    pub fn run(&mut self) -> (finished: bool)
        requires
            old(self).inv(),
        ensures
            final(self).inv(),
            // the run is a row of steps from the old state to the final one
            exists|states: Seq<Self>|
                #[trigger] Self::row_of_steps(states, finished) && states.first() == *old(self)
                    && states.last() == *final(self),
            final(self).start() == old(self).start(),
            final(self).configuration() == old(self).configuration(),
            final(self).checker() == old(self).checker(),
            final(self).nodes().len() == old(self).nodes().len(),
            final(self).clients().len() == old(self).clients().len(),
            old(self).spec_elapsed().nanos <= final(self).spec_elapsed().nanos,
            old(self).ticks_fired().is_prefix_of(final(self).ticks_fired()),
            old(self).network_output().subset_of(final(self).network_output()),
            old(self).events_taken().is_prefix_of(final(self).events_taken()),
            old(self).drawn().is_prefix_of(final(self).drawn()),
            failed_count(final(self).nodes()) <= final(self).nodes().len() / 2,
            finished ==> {
                &&& final(self).invariants_checked()
                &&& final(self).spec_elapsed().nanos
                    <= final(self).configuration().max_sim_time.nanos
                &&& forall|j: int|
                    0 <= j < final(self).clients().len() ==> reported_finished(
                        #[trigger] final(self).clients()[j],
                    )
            },
            !finished ==> {
                ||| final(self).spec_elapsed().nanos
                    > final(self).configuration().max_sim_time.nanos
                ||| final(self).exhausted()
                ||| !old(self).tick_waits() && final(self).queue() == Map::<
                    EventTime,
                    Event<N::Message>,
                >::empty()
            },
            // no event leaves the queue but by being taken
            forall|key: EventTime| #[trigger]
                old(self).queue().contains_key(key) ==> {
                    ||| final(self).queue().contains_key(key) && final(self).queue()[key]
                        == old(self).queue()[key]
                    ||| exists|i: int|
                        old(self).events_taken().len() <= i < final(self).events_taken().len()
                            && #[trigger] final(self).events_taken()[i] == (
                            key,
                            old(self).queue()[key],
                        )
                },
            // where nothing can be taken, nothing happens
            !old(self).can_take() ==> !finished && final(self).unchanged(*old(self)),
            // the first event of the queue is the first to be taken
            old(self).can_take() ==> {
                let first = final(self).events_taken()[old(self).events_taken().len() as int];
                &&& final(self).events_taken().len() > old(self).events_taken().len()
                &&& old(self).first_waits_at(first.0)
                &&& old(self).queue()[first.0] == first.1
                // beyond the budget it ends the run, and is not handled
                &&& old(self).is_late(first.0) ==> !finished && final(self).only_took(
                    *old(self),
                    first.0,
                )
                // within the budget it ends the run where there are no clients
                &&& !old(self).is_late(first.0) && old(self).clients().len() == 0 ==> finished
                    && final(self).only_took(*old(self), first.0)
            },
    {
        let ghost mut started = false;
        let ghost mut states: Seq<Self> = Seq::empty().push(*self);
        loop
            invariant
                self.inv(),
                states.len() >= 1,
                states.first() == *old(self),
                states.last() == *self,
                forall|k: int| 0 <= k < states.len() - 1 ==> #[trigger] Self::goes_on(states, k),
                self.start_time == old(self).start_time,
                self.config == old(self).config,
                self.invariant_checker == old(self).invariant_checker,
                self.nodes@.len() == old(self).nodes@.len(),
                self.clients@.len() == old(self).clients@.len(),
                old(self).elapsed.nanos <= self.elapsed.nanos,
                old(self).fired@.is_prefix_of(self.fired@),
                old(self).delivered@.subset_of(self.delivered@),
                old(self).taken@.is_prefix_of(self.taken@),
                old(self).rng.drawn().is_prefix_of(self.rng.drawn()),
                !started ==> self.unchanged(*old(self)),
                old(self).tick_waits() ==> self.tick_waits(),
                started ==> {
                    let first = self.taken@[old(self).taken@.len() as int];
                    &&& old(self).can_take()
                    &&& self.taken@.len() > old(self).taken@.len()
                    &&& old(self).first_waits_at(first.0)
                    &&& old(self).queue()[first.0] == first.1
                    &&& !old(self).is_late(first.0)
                    &&& old(self).clients().len() > 0
                },
                forall|key: EventTime| #[trigger]
                    old(self).queue().contains_key(key) ==> {
                        ||| self.queue().contains_key(key) && self.queue()[key]
                            == old(self).queue()[key]
                        ||| exists|i: int|
                            old(self).taken@.len() <= i < self.taken@.len()
                                && #[trigger] self.taken@[i] == (key, old(self).queue()[key])
                    },
            decreases usize::MAX - self.event_processed_count,
        {
            let ghost before = *self;
            let outcome = self.step();
            proof {
                let row = states.push(*self);
                assert forall|k: int| 0 <= k < row.len() - 2 implies #[trigger] Self::goes_on(
                    row,
                    k,
                ) by {
                    assert(Self::goes_on(states, k));
                    assert(row[k] == states[k] && row[k + 1] == states[k + 1]);
                }
                assert(row[row.len() - 2] == before);
                states = row;
                if before.can_take() {
                    let key = self.taken@.last().0;
                    assert(self.taken@[before.taken@.len() as int] == (key, before.queue()[key]));
                    assert forall|other: EventTime| #[trigger]
                        old(self).queue().contains_key(other) implies {
                        ||| self.queue().contains_key(other) && self.queue()[other]
                            == old(self).queue()[other]
                        ||| exists|i: int|
                            old(self).taken@.len() <= i < self.taken@.len()
                                && #[trigger] self.taken@[i] == (other, old(self).queue()[other])
                    } by {
                        if before.queue().contains_key(other) && before.queue()[other]
                            == old(self).queue()[other] {
                            if other == key {
                                assert(self.taken@[before.taken@.len() as int] == (
                                    other,
                                    old(self).queue()[other],
                                ));
                            }
                        } else {
                            let i = choose|i: int|
                                old(self).taken@.len() <= i < before.taken@.len()
                                    && #[trigger] before.taken@[i] == (
                                    other,
                                    old(self).queue()[other],
                                );
                            assert(self.taken@[i] == before.taken@[i]);
                        }
                    }
                    if started {
                        assert(self.taken@[old(self).taken@.len() as int]
                            == before.taken@[old(self).taken@.len() as int]);
                    }
                }
            }
            match outcome {
                Some(finished) => {
                    proof {
                        assert(Self::row_of_steps(states, finished));
                    }
                    return finished;
                },
                None => {
                    proof {
                        started = true;
                    }
                },
            }
        }
    }

    /// The first destination of a handled message that was no server and
    /// no client of this simulation, if there was one.
    pub fn stray_destination(&self) -> (to: Option<NodeId>)
        ensures
            to == self.stray(),
    {
        self.stray
    }

    pub fn elapsed(&self) -> (elapsed: Duration)
        ensures
            elapsed == self.spec_elapsed(),
    {
        self.elapsed
    }

    /// Schedules `event` for `time`, behind all events scheduled for that
    /// instant so far.
    fn push_event(&mut self, time: Instant, event: Event<N::Message>)
        requires
            old(self).inv(),
            old(self).total_event_count < usize::MAX,
            old(self).now() <= time.nanos <= old(self).horizon(),
            event is Tick ==> old(self).no_tick_waits() && time.nanos == old(self).next_tick(),
            event matches Event::Message(sent) ==> old(self).delivered@.contains(sent.message)
                && 1 <= sent.id <= old(self).total_message_count,
        ensures
            final(self).inv(),
            final(self).total_event_count == old(self).total_event_count + 1,
            !old(self).events@.contains_key(
                EventTime { time, offset: final(self).total_event_count },
            ),
            final(self).events@ == old(self).events@.insert(
                EventTime { time, offset: final(self).total_event_count },
                event,
            ),
            final(self).start_time == old(self).start_time,
            final(self).config == old(self).config,
            final(self).invariant_checker == old(self).invariant_checker,
            final(self).elapsed == old(self).elapsed,
            final(self).nodes == old(self).nodes,
            final(self).clients == old(self).clients,
            final(self).fired == old(self).fired,
            final(self).delivered == old(self).delivered,
            final(self).stray == old(self).stray,
            final(self).taken == old(self).taken,
            final(self).rng == old(self).rng,
            final(self).network == old(self).network,
            final(self).event_processed_count == old(self).event_processed_count,
            final(self).total_message_count == old(self).total_message_count,
    {
        self.total_event_count += 1;
        let key = EventTime { time, offset: self.total_event_count };
        assert(!old(self).events@.contains_key(key)) by {
            if old(self).events@.contains_key(key) {
                assert(old(self).waits_well(key));
            }
        }
        self.events.insert(key, event);
        proof {
            assert forall|other: EventTime| #[trigger]
                self.events@.contains_key(other) implies self.waits_well(other) by {
                if other != key {
                    assert(old(self).events@.contains_key(other));
                    assert(old(self).waits_well(other));
                }
            }
            assert forall|a: EventTime, b: EventTime|
                self.events@.contains_key(a) && self.events@.contains_key(b) && (
                #[trigger] self.events@[a]) is Tick && (#[trigger] self.events@[b])
                    is Tick implies a == b by {
                if a != key {
                    assert(old(self).events@.contains_key(a));
                }
                if b != key {
                    assert(old(self).events@.contains_key(b));
                }
            }
        }
    }

    /// Whether one more server may crash: fewer than half of the servers,
    /// rounded down, are down. A server that runs counts as running, whatever
    /// it says of its recovery.
    fn can_additional_node_fail(&self) -> (allowed: bool)
        ensures
            allowed == (failed_count(self.nodes@) < self.nodes@.len() / 2),
    {
        let server_count: usize = self.nodes.len();
        let mut currently_failed: usize = 0;
        let mut i: usize = 0;
        while i < self.nodes.len()
            invariant
                i <= self.nodes.len(),
                currently_failed == failed_count(self.nodes@.take(i as int)),
                currently_failed <= i,
            decreases self.nodes.len() - i,
        {
            proof {
                assert(self.nodes@.take(i + 1).drop_last() =~= self.nodes@.take(i as int));
            }
            if self.nodes[i].state().is_failed() {
                currently_failed += 1;
            }
            i += 1;
        }
        proof {
            assert(self.nodes@.take(i as int) =~= self.nodes@);
        }
        quorum_allows_failure(server_count, currently_failed)
    }

    /// Whether every client says that it has finished.
    ///
    /// The clients are asked in the order of their indices, up to the first
    /// that says that it has not finished.
    fn all_clients_finished(&self) -> (all: bool)
        ensures
            all ==> forall|j: int|
                0 <= j < self.clients@.len() ==> reported_finished(#[trigger] self.clients@[j]),
            !all ==> exists|first: int|
                0 <= first < self.clients@.len() && #[trigger] reported_unfinished(
                    self.clients@[first],
                ) && forall|j: int|
                    0 <= j < first ==> reported_finished(#[trigger] self.clients@[j]),
    {
        let mut j: usize = 0;
        while j < self.clients.len()
            invariant
                j <= self.clients.len(),
                forall|k: int| 0 <= k < j ==> reported_finished(#[trigger] self.clients@[k]),
            decreases self.clients.len() - j,
        {
            if !self.clients[j].finished() {
                assert(reported_unfinished(self.clients@[j as int]));
                return false;
            }
            j += 1;
        }
        true
    }

    /// Handles the event that is due at `now` and returns what the servers
    /// and clients send in answer.
    ///
    /// A message goes to the server or client that it names as its
    /// destination. Where there is none of that index it is dropped, and the
    /// first such destination is kept on record. A tick goes to every server
    /// and then to every client, and schedules the next tick.
    fn handle_event(&mut self, now: Instant, event: Event<N::Message>) -> (messages: Vec<
        N::Message,
    >)
        requires
            old(self).inv(),
            old(self).total_event_count < usize::MAX,
            now.nanos == old(self).now(),
            old(self).elapsed.nanos <= old(self).config.max_sim_time.nanos,
            event is Tick ==> old(self).no_tick_waits() && now.nanos == old(self).next_tick(),
            event matches Event::Message(sent) ==> old(self).delivered@.contains(sent.message),
        ensures
            final(self).inv(),
            final(self).start_time == old(self).start_time,
            final(self).config == old(self).config,
            final(self).invariant_checker == old(self).invariant_checker,
            final(self).elapsed == old(self).elapsed,
            final(self).nodes@.len() == old(self).nodes@.len(),
            final(self).clients@.len() == old(self).clients@.len(),
            final(self).event_processed_count == old(self).event_processed_count,
            final(self).total_message_count == old(self).total_message_count,
            final(self).delivered == old(self).delivered,
            final(self).taken == old(self).taken,
            final(self).network == old(self).network,
            old(self).rng.drawn().is_prefix_of(final(self).rng.drawn()),
            forall|key: EventTime| #[trigger]
                old(self).events@.contains_key(key) ==> final(self).events@.contains_key(key)
                    && final(self).events@[key] == old(self).events@[key],
            match event {
                Event::Tick => {
                    &&& final(self).total_event_count == old(self).total_event_count + 1
                    &&& final(self).fired@ == old(self).fired@.push(now)
                    &&& final(self).stray == old(self).stray
                    &&& final(self).events@ == old(self).events@.insert(
                        EventTime {
                            time: Instant {
                                nanos: (now.nanos + old(self).config.tick_interval.nanos) as u64,
                            },
                            offset: final(self).total_event_count,
                        },
                        Event::Tick,
                    )
                    &&& final(self).rng.drawn_since(old(self).rng.drawn()).len()
                        == tick_draws_before(old(self).nodes@, now, old(self).nodes@.len() as int)
                    &&& forall|i: int|
                        0 <= i < old(self).nodes@.len() ==> #[trigger] server_ticked(
                            old(self).nodes@,
                            now,
                            final(self).rng.drawn_since(old(self).rng.drawn()),
                            final(self).nodes@,
                            i,
                        )
                    &&& exists|servers: Seq<Vec<N::Message>>, clients: Seq<Vec<N::Message>>|
                        {
                            &&& messages@ == #[trigger] tick_answer(servers, clients)
                            &&& servers.len() == old(self).nodes@.len()
                            &&& clients.len() == old(self).clients@.len()
                            &&& forall|i: int| #[trigger]
                                has_part(servers, i) ==> {
                                    &&& final(self).nodes@[i].spec_is_failed()
                                        ==> servers[i]@.len() == 0 && final(self).nodes@[i]@.node
                                        == old(self).nodes@[i]@.node
                                    &&& !final(self).nodes@[i].spec_is_failed()
                                        && old(self).nodes@[i]@.state.spec_pending(now, false)
                                        != NodeTransition::Restart ==> exists|node: &mut N|
                                        *node == old(self).nodes@[i]@.node && *final(node)
                                            == final(self).nodes@[i]@.node
                                            && #[trigger] call_ensures(
                                            N::tick,
                                            (node, now),
                                            servers[i],
                                        )
                                    &&& !final(self).nodes@[i].spec_is_failed()
                                        && old(self).nodes@[i]@.state.spec_pending(now, false)
                                        == NodeTransition::Restart
                                            ==> exists|first: &mut N, nonce: u64, node: &mut N|
                                        *first == old(self).nodes@[i]@.node
                                            && #[trigger] call_ensures(
                                            N::recover,
                                            (first, now, nonce, old(self).nodes@[i]@.replica_count),
                                            (),
                                        ) && *node == *final(first) && *final(node)
                                            == final(self).nodes@[i]@.node
                                            && #[trigger] call_ensures(N::tick, (node, now), servers[i])
                                }
                            &&& forall|j: int| #[trigger]
                                has_part(clients, j) ==> {
                                    exists|client: &mut C|
                                        *client == old(self).clients@[j] && *final(client)
                                            == final(self).clients@[j] && #[trigger] call_ensures(
                                            C::tick,
                                            (client, now),
                                            clients[j],
                                        )
                                }
                        }
                },
                Event::Message(sent) => {
                    &&& final(self).total_event_count == old(self).total_event_count
                    &&& final(self).fired@ == old(self).fired@
                    &&& final(self).events@ == old(self).events@
                    &&& exists|to: NodeId| #[trigger]
                        reported_destination(sent.message, to) && match to {
                            NodeId::Node(i) if i < old(self).nodes@.len() => {
                                &&& final(self).clients@ == old(self).clients@
                                &&& final(self).stray == old(self).stray
                                &&& server_got_message(
                                    old(self).nodes@,
                                    i as int,
                                    now,
                                    final(self).rng.drawn_since(old(self).rng.drawn()),
                                    final(self).nodes@,
                                    messages@,
                                )
                                &&& !final(self).nodes@[i as int].spec_is_failed()
                                    && old(self).nodes@[i as int]@.state.spec_pending(
                                    now,
                                    failed_count(old(self).nodes@) < old(self).nodes@.len() / 2,
                                ) != NodeTransition::Restart ==> exists|node: &mut N|
                                    *node == old(self).nodes@[i as int]@.node && *final(node)
                                        == final(self).nodes@[i as int]@.node
                                        && #[trigger] call_ensures(
                                        N::process_message,
                                        (node, sent.message, now),
                                        messages,
                                    )
                                &&& !final(self).nodes@[i as int].spec_is_failed()
                                    && old(self).nodes@[i as int]@.state.spec_pending(
                                    now,
                                    failed_count(old(self).nodes@) < old(self).nodes@.len() / 2,
                                ) == NodeTransition::Restart ==> exists|
                                    first: &mut N,
                                    nonce: u64,
                                    node: &mut N,
                                |
                                    *first == old(self).nodes@[i as int]@.node && nonce
                                        == final(self).rng.drawn().last()->bits
                                        && #[trigger] call_ensures(
                                        N::recover,
                                        (first, now, nonce, old(self).nodes@[i as int]@.replica_count),
                                        (),
                                    ) && *node == *final(first) && *final(node)
                                        == final(self).nodes@[i as int]@.node
                                        && #[trigger] call_ensures(
                                        N::process_message,
                                        (node, sent.message, now),
                                        messages,
                                    )
                            },
                            NodeId::Client(i) if i < old(self).clients@.len() => {
                                &&& final(self).nodes@ == old(self).nodes@
                                &&& final(self).stray == old(self).stray
                                &&& final(self).rng.drawn() == old(self).rng.drawn()
                                &&& forall|j: int|
                                    0 <= j < old(self).clients@.len() && j != i
                                        ==> #[trigger] final(self).clients@[j]
                                        == old(self).clients@[j]
                                &&& exists|client: &mut C|
                                    *client == old(self).clients@[i as int] && *final(client)
                                        == final(self).clients@[i as int]
                                        && #[trigger] call_ensures(
                                        C::process_message,
                                        (client, sent.message, now),
                                        messages,
                                    )
                            },
                            _ => {
                                &&& final(self).nodes@ == old(self).nodes@
                                &&& final(self).clients@ == old(self).clients@
                                &&& final(self).stray == first_stray(old(self).stray, to)
                                &&& final(self).rng.drawn() == old(self).rng.drawn()
                                &&& messages@.len() == 0
                            },
                        }
                },
            },
    {
        match event {
            Event::Message(msg) => {
                let SimulationMessage { message: msg, id: _ } = msg;
                let to = msg.destination();
                assert(reported_destination(msg, to));
                match to {
                    NodeId::Node(node_id) => {
                        if node_id < self.nodes.len() {
                            let can_fail = self.can_additional_node_fail();
                            let ghost before = self.nodes@;
                            let out = self.nodes[node_id].process_message(
                                msg,
                                now,
                                can_fail,
                                &mut self.rng,
                            );
                            proof {
                                assert(self.nodes@ == before.update(
                                    node_id as int,
                                    self.nodes@[node_id as int],
                                ));
                                lemma_failed_count_update(
                                    before,
                                    node_id as int,
                                    self.nodes@[node_id as int],
                                );
                                assert(node_handles(
                                    before[node_id as int]@,
                                    now,
                                    failed_count(before) < before.len() / 2,
                                    self.rng.drawn_since(old(self).rng.drawn()),
                                    self.nodes@[node_id as int]@,
                                    out@,
                                ));
                                assert(server_got_message(
                                    before,
                                    node_id as int,
                                    now,
                                    self.rng.drawn_since(old(self).rng.drawn()),
                                    self.nodes@,
                                    out@,
                                ));
                            }
                            out
                        } else {
                            if self.stray.is_none() {
                                self.stray = Some(to);
                            }
                            Vec::new()
                        }
                    },
                    NodeId::Client(client_id) => {
                        if client_id < self.clients.len() {
                            let ghost before = self.clients@;
                            let out = self.clients[client_id].process_message(msg, now);
                            proof {
                                assert(self.clients@ == before.update(
                                    client_id as int,
                                    self.clients@[client_id as int],
                                ));
                                assert(exists|client: &mut C|
                                    *client == before[client_id as int] && *final(client)
                                        == self.clients@[client_id as int]
                                        && #[trigger] call_ensures(
                                        C::process_message,
                                        (client, msg, now),
                                        out,
                                    ));
                            }
                            out
                        } else {
                            if self.stray.is_none() {
                                self.stray = Some(to);
                            }
                            Vec::new()
                        }
                    },
                }
            },
            Event::Tick => {
                let mut messages: Vec<N::Message> = Vec::new();
                let ghost mut server_answers: Seq<Vec<N::Message>> = Seq::empty();
                let ghost mut client_answers: Seq<Vec<N::Message>> = Seq::empty();
                // Handle node ticks
                let mut i: usize = 0;
                while i < self.nodes.len()
                    invariant
                        self.inv(),
                        self.no_tick_waits(),
                        self.start_time == old(self).start_time,
                        self.config == old(self).config,
                        self.invariant_checker == old(self).invariant_checker,
                        self.elapsed == old(self).elapsed,
                        self.nodes@.len() == old(self).nodes@.len(),
                        self.clients == old(self).clients,
                        self.events == old(self).events,
                        self.fired == old(self).fired,
                        self.delivered == old(self).delivered,
                        self.stray == old(self).stray,
                        self.taken == old(self).taken,
                        self.network == old(self).network,
                        old(self).rng.drawn().is_prefix_of(self.rng.drawn()),
                        self.event_processed_count == old(self).event_processed_count,
                        self.total_event_count == old(self).total_event_count,
                        self.total_message_count == old(self).total_message_count,
                        i <= self.nodes@.len(),
                        forall|j: int|
                            i <= j < self.nodes@.len() ==> self.nodes@[j] == old(self).nodes@[j],
                        self.rng.drawn().len() == old(self).rng.drawn().len() + tick_draws_before(
                            old(self).nodes@,
                            now,
                            i as int,
                        ),
                        forall|j: int|
                            0 <= j < i ==> #[trigger] server_ticked(
                                old(self).nodes@,
                                now,
                                self.rng.drawn_since(old(self).rng.drawn()),
                                self.nodes@,
                                j,
                            ),
                        server_answers.len() == i,
                        messages@ == concat_all(server_answers),
                        forall|j: int| #[trigger]
                            has_part(server_answers, j) ==> {
                                &&& self.nodes@[j].spec_is_failed() ==> server_answers[j]@.len()
                                    == 0 && self.nodes@[j]@.node == old(self).nodes@[j]@.node
                                &&& !self.nodes@[j].spec_is_failed()
                                    && old(self).nodes@[j]@.state.spec_pending(now, false)
                                    != NodeTransition::Restart ==> exists|node: &mut N|
                                    *node == old(self).nodes@[j]@.node && *final(node)
                                        == self.nodes@[j]@.node && #[trigger] call_ensures(
                                        N::tick,
                                        (node, now),
                                        server_answers[j],
                                    )
                                &&& !self.nodes@[j].spec_is_failed()
                                    && old(self).nodes@[j]@.state.spec_pending(now, false)
                                    == NodeTransition::Restart
                                        ==> exists|first: &mut N, nonce: u64, node: &mut N|
                                    *first == old(self).nodes@[j]@.node && #[trigger] call_ensures(
                                        N::recover,
                                        (first, now, nonce, old(self).nodes@[j]@.replica_count),
                                        (),
                                    ) && *node == *final(first) && *final(node)
                                        == self.nodes@[j]@.node
                                        && #[trigger] call_ensures(N::tick, (node, now), server_answers[j])
                            },
                    decreases self.nodes.len() - i,
                {
                    let ghost before = self.nodes@;
                    let ghost drawn = self.rng.drawn();
                    let ghost earlier = self.rng.drawn_since(old(self).rng.drawn());
                    let sent = self.nodes[i].tick(now, &mut self.rng);
                    let ghost answer = sent;
                    let ghost answered = server_answers;
                    proof {
                        assert(self.nodes@ == before.update(i as int, self.nodes@[i as int]));
                        lemma_failed_count_update(before, i as int, self.nodes@[i as int]);
                        let start = old(self).rng.drawn();
                        let mine = self.rng.drawn_since(drawn);
                        assert(self.rng.drawn_since(start) =~= earlier + mine);
                        lemma_server_ticked_next(
                            old(self).nodes@,
                            now,
                            i as int,
                            earlier,
                            mine,
                            before,
                            self.nodes@,
                        );
                        assert(before[i as int] == old(self).nodes@[i as int]);
                        assert(!self.nodes@[i as int].spec_is_failed()
                            && before[i as int]@.state.spec_pending(
                            now,
                            false,
                        ) != NodeTransition::Restart ==> exists|node: &mut N|
                            *node == before[i as int]@.node && *final(node)
                                == self.nodes@[i as int]@.node
                                && #[trigger] call_ensures(N::tick, (node, now), answer));
                        assert(!self.nodes@[i as int].spec_is_failed()
                            && before[i as int]@.state.spec_pending(
                            now,
                            false,
                        ) == NodeTransition::Restart ==> exists|
                            first: &mut N,
                            nonce: u64,
                            node: &mut N,
                        |
                            *first == before[i as int]@.node && #[trigger] call_ensures(
                                N::recover,
                                (first, now, nonce, before[i as int]@.replica_count),
                                (),
                            ) && *node == *final(first) && *final(node)
                                == self.nodes@[i as int]@.node
                                && #[trigger] call_ensures(N::tick, (node, now), answer));
                        server_answers = server_answers.push(answer);
                        assert(server_answers.drop_last() =~= answered);
                        assert forall|j: int| #[trigger] has_part(server_answers, j) implies {
                            &&& self.nodes@[j].spec_is_failed() ==> server_answers[j]@.len() == 0
                                && self.nodes@[j]@.node == old(self).nodes@[j]@.node
                            &&& !self.nodes@[j].spec_is_failed()
                                && old(self).nodes@[j]@.state.spec_pending(now, false)
                                != NodeTransition::Restart ==> exists|node: &mut N|
                                *node == old(self).nodes@[j]@.node && *final(node)
                                    == self.nodes@[j]@.node && #[trigger] call_ensures(
                                    N::tick,
                                    (node, now),
                                    server_answers[j],
                                )
                            &&& !self.nodes@[j].spec_is_failed()
                                && old(self).nodes@[j]@.state.spec_pending(now, false)
                                == NodeTransition::Restart
                                    ==> exists|first: &mut N, nonce: u64, node: &mut N|
                                *first == old(self).nodes@[j]@.node && #[trigger] call_ensures(
                                    N::recover,
                                    (first, now, nonce, old(self).nodes@[j]@.replica_count),
                                    (),
                                ) && *node == *final(first) && *final(node) == self.nodes@[j]@.node
                                    && #[trigger] call_ensures(N::tick, (node, now), server_answers[j])
                        } by {
                            if j < i {
                                assert(has_part(answered, j));
                                assert(server_answers[j] == answered[j]);
                                assert(self.nodes@[j] == before[j]);
                                assert(before[j].spec_is_failed() ==> answered[j]@.len() == 0
                                    && before[j]@.node == old(self).nodes@[j]@.node);
                                assert(!before[j].spec_is_failed()
                                    && old(self).nodes@[j]@.state.spec_pending(now, false)
                                    != NodeTransition::Restart ==> exists|node: &mut N|
                                    *node == old(self).nodes@[j]@.node && *final(node)
                                        == before[j]@.node && #[trigger] call_ensures(
                                        N::tick,
                                        (node, now),
                                        answered[j],
                                    ));
                                assert(!before[j].spec_is_failed()
                                    && old(self).nodes@[j]@.state.spec_pending(now, false)
                                    == NodeTransition::Restart ==> exists|
                                    first: &mut N,
                                    nonce: u64,
                                    node: &mut N,
                                |
                                    *first == old(self).nodes@[j]@.node && #[trigger] call_ensures(
                                        N::recover,
                                        (first, now, nonce, old(self).nodes@[j]@.replica_count),
                                        (),
                                    ) && *node == *final(first) && *final(node) == before[j]@.node
                                        && #[trigger] call_ensures(
                                        N::tick,
                                        (node, now),
                                        answered[j],
                                    ));
                            } else {
                                assert(j == i);
                                assert(server_answers[j] == answer);
                                assert(self.nodes@[j].spec_is_failed() ==> answer@.len() == 0
                                    && self.nodes@[j]@.node == before[j]@.node);
                            }
                        }
                    }
                    extend(&mut messages, sent);
                    i += 1;
                }
                let ghost ticked = self.nodes@;
                // Handle client ticks
                let mut j: usize = 0;
                while j < self.clients.len()
                    invariant
                        self.inv(),
                        self.no_tick_waits(),
                        self.start_time == old(self).start_time,
                        self.config == old(self).config,
                        self.invariant_checker == old(self).invariant_checker,
                        self.elapsed == old(self).elapsed,
                        self.nodes@.len() == old(self).nodes@.len(),
                        self.clients@.len() == old(self).clients@.len(),
                        self.events == old(self).events,
                        self.fired == old(self).fired,
                        self.delivered == old(self).delivered,
                        self.stray == old(self).stray,
                        self.taken == old(self).taken,
                        self.network == old(self).network,
                        old(self).rng.drawn().is_prefix_of(self.rng.drawn()),
                        self.event_processed_count == old(self).event_processed_count,
                        self.total_event_count == old(self).total_event_count,
                        self.total_message_count == old(self).total_message_count,
                        self.nodes@ == ticked,
                        self.rng.drawn().len() == old(self).rng.drawn().len() + tick_draws_before(
                            old(self).nodes@,
                            now,
                            old(self).nodes@.len() as int,
                        ),
                        forall|i: int|
                            0 <= i < ticked.len() ==> #[trigger] server_ticked(
                                old(self).nodes@,
                                now,
                                self.rng.drawn_since(old(self).rng.drawn()),
                                ticked,
                                i,
                            ),
                        j <= self.clients@.len(),
                        server_answers.len() == ticked.len(),
                        client_answers.len() == j,
                        messages@ == tick_answer(server_answers, client_answers),
                        forall|k: int|
                            j <= k < self.clients@.len() ==> self.clients@[k]
                                == old(self).clients@[k],
                        forall|i: int| #[trigger]
                            has_part(server_answers, i) ==> {
                                &&& ticked[i].spec_is_failed() ==> server_answers[i]@.len() == 0
                                    && ticked[i]@.node == old(self).nodes@[i]@.node
                                &&& !ticked[i].spec_is_failed()
                                    && old(self).nodes@[i]@.state.spec_pending(now, false)
                                    != NodeTransition::Restart ==> exists|node: &mut N|
                                    *node == old(self).nodes@[i]@.node && *final(node)
                                        == ticked[i]@.node && #[trigger] call_ensures(
                                        N::tick,
                                        (node, now),
                                        server_answers[i],
                                    )
                                &&& !ticked[i].spec_is_failed()
                                    && old(self).nodes@[i]@.state.spec_pending(now, false)
                                    == NodeTransition::Restart
                                        ==> exists|first: &mut N, nonce: u64, node: &mut N|
                                    *first == old(self).nodes@[i]@.node && #[trigger] call_ensures(
                                        N::recover,
                                        (first, now, nonce, old(self).nodes@[i]@.replica_count),
                                        (),
                                    ) && *node == *final(first) && *final(node) == ticked[i]@.node
                                        && #[trigger] call_ensures(N::tick, (node, now), server_answers[i])
                            },
                        forall|k: int| #[trigger]
                            has_part(client_answers, k) ==> {
                                exists|client: &mut C|
                                    *client == old(self).clients@[k] && *final(client)
                                        == self.clients@[k] && #[trigger] call_ensures(
                                        C::tick,
                                        (client, now),
                                        client_answers[k],
                                    )
                            },
                    decreases self.clients.len() - j,
                {
                    let ghost asked = self.clients@;
                    let sent = self.clients[j].tick(now);
                    let ghost answer = sent;
                    let ghost answered = client_answers;
                    proof {
                        assert(self.clients@ == asked.update(j as int, self.clients@[j as int]));
                        client_answers = client_answers.push(answer);
                        assert(client_answers.drop_last() =~= answered);
                        assert(exists|client: &mut C|
                            *client == asked[j as int] && *final(client) == self.clients@[j as int]
                                && #[trigger] call_ensures(C::tick, (client, now), answer));
                        assert(asked[j as int] == old(self).clients@[j as int]);
                        assert forall|k: int| #[trigger] has_part(client_answers, k) implies {
                            exists|client: &mut C|
                                *client == old(self).clients@[k] && *final(client)
                                    == self.clients@[k] && #[trigger] call_ensures(
                                    C::tick,
                                    (client, now),
                                    client_answers[k],
                                )
                        } by {
                            if k < j {
                                assert(has_part(answered, k));
                                assert(client_answers[k] == answered[k]);
                                assert(self.clients@[k] == asked[k]);
                                assert(exists|client: &mut C|
                                    *client == old(self).clients@[k] && *final(client) == asked[k]
                                        && #[trigger] call_ensures(
                                        C::tick,
                                        (client, now),
                                        answered[k],
                                    ));
                            } else {
                                assert(client_answers[k] == answer);
                                assert(k == j);
                            }
                        }
                    }
                    extend(&mut messages, sent);
                    j += 1;
                }
                proof {
                    let fired = self.fired@.len() as int;
                    let interval = self.config.tick_interval.nanos as int;
                    assert((fired + 1) * interval == fired * interval + interval)
                        by (nonlinear_arith);
                }
                self.fired = Ghost(self.fired@.push(now));
                let next = Instant { nanos: now.nanos + self.config.tick_interval.nanos };
                self.push_event(next, Event::Tick);
                proof {
                    let draws = self.rng.drawn_since(old(self).rng.drawn());
                    assert(draws.len() == tick_draws_before(
                        old(self).nodes@,
                        now,
                        old(self).nodes@.len() as int,
                    ));
                    assert forall|i: int|
                        0 <= i < old(self).nodes@.len() implies #[trigger] server_ticked(
                        old(self).nodes@,
                        now,
                        draws,
                        self.nodes@,
                        i,
                    ) by {
                        assert(server_ticked(old(self).nodes@, now, draws, ticked, i));
                    }
                    assert(messages@ == tick_answer(server_answers, client_answers));
                    assert(self.nodes@ == ticked);
                }
                messages
            },
        }
    }

    /// Hands the servers and the clients to the invariant checker.
    fn check_invariants(&self)
        ensures
            self.invariants_checked(),
    {
        self.invariant_checker.check_invariants(
            self.config.seed,
            self.nodes.as_slice(),
            self.clients.as_slice(),
        );
    }
}

/// At no time are more than half of the servers, rounded down, down.
pub proof fn lemma_quorum_preserved<
    N: DeterministicNode,
    C: DeterministicClient<Message = N::Message>,
    I: InvariantChecker<N, C>,
    S: ExponentialSampler,
>(simulator: Simulator<N, C, I, S>)
    requires
        simulator.inv(),
    ensures
        failed_count(simulator.nodes()) <= simulator.nodes().len() / 2,
{
}

/// Ticks keep their cadence: the tick number `k`, counted from zero, was
/// handled at the start plus `k` tick intervals, which is not after the last
/// event taken; at most one tick waits in the queue, and it is the next in
/// this row.
pub proof fn lemma_tick_cadence<
    N: DeterministicNode,
    C: DeterministicClient<Message = N::Message>,
    I: InvariantChecker<N, C>,
    S: ExponentialSampler,
>(simulator: Simulator<N, C, I, S>)
    requires
        simulator.inv(),
    ensures
        forall|k: int|
            0 <= k < simulator.ticks_fired().len() ==> (#[trigger] simulator.ticks_fired()[k]).nanos
                == simulator.start().nanos + k * simulator.configuration().tick_interval.nanos,
        forall|k: int|
            0 <= k < simulator.ticks_fired().len() ==> (#[trigger] simulator.ticks_fired()[k]).nanos
                <= simulator.start().nanos + simulator.spec_elapsed().nanos,
        forall|key: EventTime|
            simulator.queue().contains_key(key) && (#[trigger] simulator.queue()[key]) is Tick
                ==> key.time.nanos == simulator.start().nanos + simulator.ticks_fired().len()
                * simulator.configuration().tick_interval.nanos,
        forall|a: EventTime, b: EventTime|
            simulator.queue().contains_key(a) && simulator.queue().contains_key(b) && (
            #[trigger] simulator.queue()[a]) is Tick && (#[trigger] simulator.queue()[b]) is Tick
                ==> a == b,
{
    assert forall|key: EventTime|
        simulator.queue().contains_key(key) && (#[trigger] simulator.queue()[key])
            is Tick implies key.time.nanos == simulator.start().nanos
        + simulator.ticks_fired().len() * simulator.configuration().tick_interval.nanos by {
        assert(simulator.waits_well(key));
    }
}

/// An event that waits in the queue is due no earlier than the last event
/// taken, its place is behind that of the last event taken, and its number
/// is one that has been given out.
pub proof fn lemma_waiting_events_are_ahead<
    N: DeterministicNode,
    C: DeterministicClient<Message = N::Message>,
    I: InvariantChecker<N, C>,
    S: ExponentialSampler,
>(simulator: Simulator<N, C, I, S>, key: EventTime)
    requires
        simulator.inv(),
        simulator.queue().contains_key(key),
    ensures
        simulator.start().nanos + simulator.spec_elapsed().nanos <= key.time.nanos,
        key.offset <= simulator.events_scheduled(),
        simulator.events_taken().len() > 0 ==> simulator.events_taken().last().0.spec_before(
            key,
        ),
{
    assert(simulator.waits_well(key));
}

/// Every message that the engine has taken from the queue for delivery was
/// handed back by the network before, under the number of a message that was
/// sent.
pub proof fn lemma_delivered_came_from_network<
    N: DeterministicNode,
    C: DeterministicClient<Message = N::Message>,
    I: InvariantChecker<N, C>,
    S: ExponentialSampler,
>(simulator: Simulator<N, C, I, S>, i: int)
    requires
        simulator.inv(),
        0 <= i < simulator.events_taken().len(),
    ensures
        simulator.events_taken()[i].1 matches Event::Message(sent)
            ==> simulator.network_output().contains(sent.message) && 1 <= sent.id
            <= simulator.messages_sent(),
{
}

/// Every message that waits for its delivery was handed back by the
/// network before.
pub proof fn lemma_deliveries_come_from_network<
    N: DeterministicNode,
    C: DeterministicClient<Message = N::Message>,
    I: InvariantChecker<N, C>,
    S: ExponentialSampler,
>(simulator: Simulator<N, C, I, S>, key: EventTime)
    requires
        simulator.inv(),
        simulator.queue().contains_key(key),
    ensures
        simulator.queue()[key] matches Event::Message(sent)
            ==> simulator.network_output().contains(sent.message),
{
    assert(simulator.waits_well(key));
}

/// The events taken from the queue are as many as the simulator has
/// counted, and the last of them is where the clock stands.
pub proof fn lemma_clock_stands_at_last_event<
    N: DeterministicNode,
    C: DeterministicClient<Message = N::Message>,
    I: InvariantChecker<N, C>,
    S: ExponentialSampler,
>(simulator: Simulator<N, C, I, S>)
    requires
        simulator.inv(),
    ensures
        simulator.events_taken().len() == simulator.events_processed(),
        simulator.events_taken().len() > 0 ==> simulator.events_taken().last().0.time.nanos
            == simulator.start().nanos + simulator.spec_elapsed().nanos,
{
}

/// Events leave the queue in the order of their places: by instant, and
/// within one instant in the order in which they were scheduled. So virtual
/// time never goes back from one event to the next.
pub proof fn lemma_events_leave_in_order<
    N: DeterministicNode,
    C: DeterministicClient<Message = N::Message>,
    I: InvariantChecker<N, C>,
    S: ExponentialSampler,
>(simulator: Simulator<N, C, I, S>, i: int, j: int)
    requires
        simulator.inv(),
        0 <= i < j < simulator.events_taken().len(),
    ensures
        simulator.events_taken()[i].0.spec_before(simulator.events_taken()[j].0),
        simulator.events_taken()[i].0.time.nanos <= simulator.events_taken()[j].0.time.nanos,
{
}

/// A tick lets no server crash: a server that is down once a tick has been
/// handled was down before.
pub proof fn lemma_tick_crashes_no_server<
    N: DeterministicNode,
    C: DeterministicClient<Message = N::Message>,
    I: InvariantChecker<N, C>,
    S: ExponentialSampler,
>(
    before: Simulator<N, C, I, S>,
    after: Simulator<N, C, I, S>,
    key: EventTime,
    emitted: Seq<N::Message>,
    dispatch: Seq<Draw>,
    i: int,
)
    requires
        before.queue()[key] is Tick,
        after.handled(before, key, emitted, dispatch),
        0 <= i < before.nodes().len(),
        after.nodes()[i].spec_is_failed(),
    ensures
        before.nodes()[i].spec_is_failed(),
{
    assert(server_ticked(before.nodes(), key.time, dispatch, after.nodes(), i));
}

/// A message lets no server crash but the one that it is for, and that one
/// only where fewer than half of the servers, rounded down, were down: a
/// server that is down once a message has been handled, and was not down
/// before, is the destination of the message.
pub proof fn lemma_message_crashes_its_destination_alone<
    N: DeterministicNode,
    C: DeterministicClient<Message = N::Message>,
    I: InvariantChecker<N, C>,
    S: ExponentialSampler,
>(
    before: Simulator<N, C, I, S>,
    after: Simulator<N, C, I, S>,
    key: EventTime,
    emitted: Seq<N::Message>,
    dispatch: Seq<Draw>,
    j: int,
)
    requires
        before.queue()[key] is Message,
        after.handled(before, key, emitted, dispatch),
        0 <= j < before.nodes().len(),
        after.nodes()[j].spec_is_failed(),
        !before.nodes()[j].spec_is_failed(),
    ensures
        reported_destination(before.queue()[key]->Message_0.message, NodeId::Node(j as usize)),
        failed_count(before.nodes()) < before.nodes().len() / 2,
{
    let sent = before.queue()[key]->Message_0;
    let to = choose|to: NodeId| #[trigger]
        reported_destination(sent.message, to) && match to {
            NodeId::Node(i) if i < before.nodes().len() => {
                &&& after.clients() == before.clients()
                &&& after.stray() == before.stray()
                &&& server_got_message(
                    before.nodes(),
                    i as int,
                    key.time,
                    dispatch,
                    after.nodes(),
                    emitted,
                )
            },
            NodeId::Client(i) if i < before.clients().len() => {
                &&& after.nodes() == before.nodes()
                &&& after.stray() == before.stray()
                &&& dispatch.len() == 0
                &&& forall|k: int|
                    0 <= k < before.clients().len() && k != i ==> #[trigger] after.clients()[k]
                        == before.clients()[k]
            },
            _ => {
                &&& after.nodes() == before.nodes()
                &&& after.clients() == before.clients()
                &&& after.stray() == first_stray(before.stray(), to)
                &&& dispatch.len() == 0
                &&& emitted.len() == 0
            },
        };
    match to {
        NodeId::Node(i) => {
            if i < before.nodes().len() {
                if i != j {
                    assert(after.nodes()[j] == before.nodes()[j]);
                }
            }
        },
        NodeId::Client(i) => {},
    }
}

/// What a step brings into the queue is what the network returned: an
/// event that waits after a step in which every message was sent, and that
/// is neither an event that waited before nor the next tick, is a delivery
/// that the network returned for one of the messages of the step. It
/// carries the number of that message, and it is due at the instant of the
/// step plus the delay that the network gave it.
pub proof fn lemma_step_schedules_what_the_network_returned<
    N: DeterministicNode,
    C: DeterministicClient<Message = N::Message>,
    I: InvariantChecker<N, C>,
    S: ExponentialSampler,
>(
    before: Simulator<N, C, I, S>,
    after: Simulator<N, C, I, S>,
    key: EventTime,
    emitted: Seq<N::Message>,
    dispatch: Seq<Draw>,
    place: EventTime,
)
    requires
        after.sent_all(before, key, emitted, dispatch),
        after.queue().contains_key(place),
        !before.queue_after_handling(key).contains_key(place),
    ensures
        exists|outs: Seq<Seq<DeliverMessage<N::Message>>>, k: int, j: int|
            #![trigger network_sends(
                before.network(),
                emitted,
                key.time,
                after.drawn_since(before).skip(dispatch.len() as int),
                after.network(),
                outs,
            ), outs[k][j]]
            {
                &&& network_sends(
                    before.network(),
                    emitted,
                    key.time,
                    after.drawn_since(before).skip(dispatch.len() as int),
                    after.network(),
                    outs,
                )
                &&& 0 <= k < outs.len()
                &&& 0 <= j < outs[k].len()
                &&& place.time.nanos == (key.time.nanos + outs[k][j].delay.nanos) as u64
                &&& after.queue()[place] == Event::Message(
                    SimulationMessage {
                        message: outs[k][j].message,
                        id: (before.messages_sent() + k + 1) as usize,
                    },
                )
            },
{
    let outs = choose|outs: Seq<Seq<DeliverMessage<N::Message>>>|
        {
            &&& #[trigger] network_sends(
                before.network(),
                emitted,
                key.time,
                after.drawn_since(before).skip(dispatch.len() as int),
                after.network(),
                outs,
            )
            &&& after.queue() == scheduled_all(
                before.queue_after_handling(key),
                outs,
                key.time,
                before.messages_sent(),
                before.scheduled_after_handling(key),
            )
            &&& after.events_scheduled() == before.scheduled_after_handling(key)
                + total_deliveries(outs)
            &&& after.network_output() == before.network_output().union(messages_in(outs))
        };
    lemma_scheduled_all_are_deliveries(
        before.queue_after_handling(key),
        outs,
        key.time,
        before.messages_sent(),
        before.scheduled_after_handling(key),
        place,
    );
    let (k, j) = choose|k: int, j: int|
        0 <= k < outs.len() && 0 <= j < outs[k].len() && place.time.nanos == (key.time.nanos
            + outs[k][j].delay.nanos) as u64 && scheduled_all(
            before.queue_after_handling(key),
            outs,
            key.time,
            before.messages_sent(),
            before.scheduled_after_handling(key),
        )[place] == Event::Message(
            SimulationMessage {
                message: (#[trigger] outs[k][j]).message,
                id: (before.messages_sent() + k + 1) as usize,
            },
        );
    assert(network_sends(
        before.network(),
        emitted,
        key.time,
        after.drawn_since(before).skip(dispatch.len() as int),
        after.network(),
        outs,
    ) && 0 <= k < outs.len() && 0 <= j < outs[k].len());
}

/// The messages among the deliveries `outs` are the messages of these
/// deliveries and no others. So what a step adds to the set of what the
/// network has returned is what the network returned in that step.
pub proof fn lemma_network_output_is_what_was_returned<M>(
    outs: Seq<Seq<DeliverMessage<M>>>,
    message: M,
)
    requires
        messages_in(outs).contains(message),
    ensures
        exists|k: int, j: int|
            0 <= k < outs.len() && 0 <= j < outs[k].len() && (#[trigger] outs[k][j]).message
                == message,
    decreases outs.len(),
{
    if outs.len() > 0 {
        if messages_of(outs.last()).contains(message) {
            let j = choose|j: int|
                0 <= j < outs.last().len() && (#[trigger] outs.last()[j]).message == message;
            assert(outs[outs.len() - 1][j].message == message);
        } else {
            lemma_network_output_is_what_was_returned(outs.drop_last(), message);
            let (k, j) = choose|k: int, j: int|
                0 <= k < outs.drop_last().len() && 0 <= j < outs.drop_last()[k].len() && (
                #[trigger] outs.drop_last()[k][j]).message == message;
            assert(outs[k][j].message == message);
        }
    }
}

/// What the network returned in a step is scheduled, each delivery once:
/// where `outs` is what the network returned for the messages of a step and
/// the queue after the step holds these deliveries, the delivery
/// `outs[k][j]` waits at its place, under the number of the message that it
/// is for, and no other delivery of the step waits at that place.
pub proof fn lemma_step_schedules_every_delivery<
    N: DeterministicNode,
    C: DeterministicClient<Message = N::Message>,
    I: InvariantChecker<N, C>,
    S: ExponentialSampler,
>(
    before: Simulator<N, C, I, S>,
    after: Simulator<N, C, I, S>,
    key: EventTime,
    outs: Seq<Seq<DeliverMessage<N::Message>>>,
    k: int,
    j: int,
)
    requires
        after.queue() == scheduled_all(
            before.queue_after_handling(key),
            outs,
            key.time,
            before.messages_sent(),
            before.scheduled_after_handling(key),
        ),
        after.events_scheduled() == before.scheduled_after_handling(key) + total_deliveries(outs),
        0 <= k < outs.len(),
        0 <= j < outs[k].len(),
    ensures
        after.queue().contains_key(
            place_in_row(outs, key.time, before.scheduled_after_handling(key), k, j),
        ),
        after.queue()[place_in_row(outs, key.time, before.scheduled_after_handling(key), k, j)]
            == Event::Message(
            SimulationMessage {
                message: outs[k][j].message,
                id: (before.messages_sent() + k + 1) as usize,
            },
        ),
        forall|k2: int, j2: int|
            0 <= k2 < outs.len() && 0 <= j2 < outs[k2].len() && (k2, j2) != (k, j)
                ==> #[trigger] place_in_row(
                outs,
                key.time,
                before.scheduled_after_handling(key),
                k2,
                j2,
            ) != place_in_row(outs, key.time, before.scheduled_after_handling(key), k, j),
{
    let offset = before.scheduled_after_handling(key);
    lemma_every_delivery_is_scheduled(
        before.queue_after_handling(key),
        outs,
        key.time,
        before.messages_sent(),
        offset,
        k,
        j,
    );
    assert forall|k2: int, j2: int|
        0 <= k2 < outs.len() && 0 <= j2 < outs[k2].len() && (k2, j2) != (
            k,
            j,
        ) implies #[trigger] place_in_row(outs, key.time, offset, k2, j2) != place_in_row(
        outs,
        key.time,
        offset,
        k,
        j,
    ) by {
        lemma_deliveries_have_their_own_places(outs, key.time, offset, (k2, j2), (k, j));
    }
}

} // verus!
