//! The network: one link for every pair of nodes that has exchanged a
//! message, and the partition over all of them.

use vstd::prelude::*;
use crate::model::{reported_destination, reported_source, ProtocolMessage};
use crate::networking::config::NetworkConfig;
use crate::networking::link::{
    lemma_link_delays_are_possible, lemma_link_send_is_determined, link_send,
    link_up_draw_count, link_up_draws, link_up_state, Link, LinkView,
};
use crate::networking::partition::{
    partition_after_transition, partition_heal_draws, partition_heal_state,
    partition_transition_draw_count, partition_transition_draws, NetworkPartition,
    NetworkPartitionView, PartitionStateView,
};
use crate::node_id::{link_key, spec_link_key, NodeId};
use crate::rng::{Draw, ExponentialSampler, SimRng};
use crate::time::{Duration, Instant};

verus! {

/// A message that the network will deliver, and how long it takes.
#[derive(Debug)]
pub struct DeliverMessage<M> {
    pub message: M,
    pub delay: Duration,
}

impl<M: Clone> Clone for DeliverMessage<M> {
    fn clone(&self) -> (copy: DeliverMessage<M>)
        ensures
            cloned(self.message, copy.message),
            copy.delay == self.delay,
    {
        DeliverMessage { message: self.message.clone(), delay: self.delay }
    }
}

/// A link, filed under the pair of nodes that it joins.
struct LinkEntry<M> {
    key: (NodeId, NodeId),
    link: Link<M>,
}

pub struct Network<M> {
    links: Vec<LinkEntry<M>>,
    partitioning: NetworkPartition,
    config: NetworkConfig,
    simulation_start: Instant,
}

/// The network as contracts see it.
pub struct NetworkView<M> {
    /// The links made so far, each under the key of its pair.
    pub links: Map<(NodeId, NodeId), LinkView<M>>,
    pub partitioning: NetworkPartitionView,
    pub config: NetworkConfig,
    pub simulation_start: Instant,
}

/// Whether some entry is filed under `key`.
spec fn has_key<M>(entries: Seq<LinkEntry<M>>, key: (NodeId, NodeId)) -> bool {
    exists|i: int| 0 <= i < entries.len() && (#[trigger] entries[i]).key == key
}

/// The position of an entry filed under `key`.
spec fn position_of<M>(entries: Seq<LinkEntry<M>>, key: (NodeId, NodeId)) -> int {
    choose|i: int| 0 <= i < entries.len() && (#[trigger] entries[i]).key == key
}

/// No two entries are filed under one key.
spec fn distinct_keys<M>(entries: Seq<LinkEntry<M>>) -> bool {
    forall|i: int, j: int|
        0 <= i < entries.len() && 0 <= j < entries.len() && i != j ==> (#[trigger] entries[i]).key
            != (#[trigger] entries[j]).key
}

/// The entries as a map from keys to links.
spec fn links_of<M>(entries: Seq<LinkEntry<M>>) -> Map<(NodeId, NodeId), LinkView<M>> {
    Map::new(
        |key: (NodeId, NodeId)| has_key(entries, key),
        |key: (NodeId, NodeId)| entries[position_of(entries, key)].link@,
    )
}

proof fn lemma_links_of_entry<M>(entries: Seq<LinkEntry<M>>, i: int)
    requires
        distinct_keys(entries),
        0 <= i < entries.len(),
    ensures
        links_of(entries).contains_key(entries[i].key),
        links_of(entries)[entries[i].key] == entries[i].link@,
        position_of(entries, entries[i].key) == i,
{
}

proof fn lemma_links_of_push<M>(entries: Seq<LinkEntry<M>>, entry: LinkEntry<M>)
    requires
        distinct_keys(entries),
        !has_key(entries, entry.key),
    ensures
        distinct_keys(entries.push(entry)),
        links_of(entries.push(entry)) == links_of(entries).insert(entry.key, entry.link@),
{
    let after = entries.push(entry);
    assert(distinct_keys(after)) by {
        assert forall|i: int, j: int|
            0 <= i < after.len() && 0 <= j < after.len() && i != j implies (#[trigger] after[i]).key
            != (#[trigger] after[j]).key by {
            if i < entries.len() {
                assert(after[i] == entries[i]);
            }
            if j < entries.len() {
                assert(after[j] == entries[j]);
            }
        }
    }
    assert forall|key: (NodeId, NodeId)|
        has_key(after, key) <==> (has_key(entries, key) || key == entry.key) by {
        if has_key(entries, key) {
            let i = position_of(entries, key);
            assert(after[i].key == key);
        }
        if key == entry.key {
            assert(after[entries.len() as int].key == key);
        }
        if has_key(after, key) {
            let i = position_of(after, key);
            if i < entries.len() {
                assert(entries[i].key == key);
            }
        }
    }
    assert forall|key: (NodeId, NodeId)| has_key(after, key) implies links_of(after)[key]
        == links_of(entries).insert(entry.key, entry.link@)[key] by {
        let i = position_of(after, key);
        lemma_links_of_entry(after, i);
        if i < entries.len() {
            assert(after[i] == entries[i]);
            lemma_links_of_entry(entries, i);
        }
    }
    assert(links_of(after) =~= links_of(entries).insert(entry.key, entry.link@));
}

proof fn lemma_links_of_update<M>(entries: Seq<LinkEntry<M>>, i: int, entry: LinkEntry<M>)
    requires
        distinct_keys(entries),
        0 <= i < entries.len(),
        entry.key == entries[i].key,
    ensures
        distinct_keys(entries.update(i, entry)),
        links_of(entries.update(i, entry)) == links_of(entries).insert(entry.key, entry.link@),
{
    let after = entries.update(i, entry);
    assert(distinct_keys(after)) by {
        assert forall|a: int, b: int|
            0 <= a < after.len() && 0 <= b < after.len() && a != b implies (#[trigger] after[a]).key
            != (#[trigger] after[b]).key by {
            assert(after[a].key == entries[a].key);
            assert(after[b].key == entries[b].key);
        }
    }
    assert forall|key: (NodeId, NodeId)| has_key(after, key) <==> has_key(entries, key) by {
        if has_key(entries, key) {
            let a = position_of(entries, key);
            assert(after[a].key == key);
        }
        if has_key(after, key) {
            let a = position_of(after, key);
            assert(entries[a].key == key);
        }
    }
    lemma_links_of_entry(entries, i);
    assert forall|key: (NodeId, NodeId)| has_key(after, key) implies links_of(after)[key]
        == links_of(entries).insert(entry.key, entry.link@)[key] by {
        let a = position_of(after, key);
        lemma_links_of_entry(after, a);
        if a != i {
            assert(after[a] == entries[a]);
            lemma_links_of_entry(entries, a);
        }
    }
    assert(links_of(after) =~= links_of(entries).insert(entry.key, entry.link@));
}

proof fn lemma_links_of_len<M>(entries: Seq<LinkEntry<M>>)
    requires
        distinct_keys(entries),
    ensures
        links_of(entries).dom().finite(),
        links_of(entries).dom().len() == entries.len(),
    decreases entries.len(),
{
    if entries.len() == 0 {
        assert(links_of(entries).dom() =~= Set::<(NodeId, NodeId)>::empty());
    } else {
        let front = entries.drop_last();
        assert(distinct_keys(front)) by {
            assert forall|i: int, j: int|
                0 <= i < front.len() && 0 <= j < front.len() && i != j implies (
            #[trigger] front[i]).key != (#[trigger] front[j]).key by {
                assert(front[i] == entries[i]);
                assert(front[j] == entries[j]);
            }
        }
        lemma_links_of_len(front);
        assert(!has_key(front, entries.last().key)) by {
            if has_key(front, entries.last().key) {
                let i = position_of(front, entries.last().key);
                assert(front[i] == entries[i]);
                assert(entries[entries.len() - 1].key == entries[i].key);
            }
        }
        lemma_links_of_push(front, entries.last());
        assert(front.push(entries.last()) =~= entries);
        assert(links_of(entries).dom() =~= links_of(front).dom().insert(entries.last().key));
    }
}

impl<M> View for Network<M> {
    type V = NetworkView<M>;

    closed spec fn view(&self) -> NetworkView<M> {
        NetworkView {
            links: links_of(self.links@),
            partitioning: self.partitioning@,
            config: self.config,
            simulation_start: self.simulation_start,
        }
    }
}

impl<M> NetworkView<M> {
    /// Every part of the network goes by the one configuration, which is
    /// usable, and every link is filed under the key of the pair that it
    /// joins.
    pub open spec fn wf(self) -> bool {
        &&& self.config.valid()
        &&& self.partitioning.config == self.config
        &&& forall|key: (NodeId, NodeId)| #[trigger]
            self.links.contains_key(key) ==> self.links[key].config == self.config
                && spec_link_key(self.links[key].from, self.links[key].to) == key
    }
}

/// The number of draws by which the network makes the link for the key
/// `key`: those by which a link comes up if the network has no link under
/// the key yet, and none otherwise.
pub open spec fn link_making_draw_count<M>(pre: NetworkView<M>, key: (NodeId, NodeId)) -> nat {
    if pre.links.contains_key(key) {
        0
    } else {
        link_up_draw_count(pre.config)
    }
}

/// The link that a message between `from` and `to` goes over at `now`: the
/// one that the network has for the pair, or else a new one that has come
/// up at `now` by `draws`.
pub open spec fn link_for<M>(
    pre: NetworkView<M>,
    from: NodeId,
    to: NodeId,
    now: Instant,
    draws: Seq<Draw>,
) -> LinkView<M> {
    let key = spec_link_key(from, to);
    if pre.links.contains_key(key) {
        pre.links[key]
    } else {
        LinkView {
            state: link_up_state(now, pre.config, draws),
            config: pre.config,
            simulation_start: pre.simulation_start,
            from,
            to,
        }
    }
}

/// How sending `message` from `from` to `to` at `now` changes the network
/// and what it returns: `pre` is the network before, `draws` are the draws
/// made, `post` is the network after, `out` the deliveries.
///
/// The partition first catches up with the clock. If it cuts the two nodes
/// off from each other, nothing more is drawn, nothing is delivered and no
/// link is touched. Otherwise the link of the pair is made, if there is none
/// yet, the message goes over it, and only that link changes.
pub open spec fn network_send<M: Clone>(
    pre: NetworkView<M>,
    message: M,
    from: NodeId,
    to: NodeId,
    now: Instant,
    draws: Seq<Draw>,
    post: NetworkView<M>,
    out: Seq<DeliverMessage<M>>,
) -> bool {
    let key = spec_link_key(from, to);
    let split = partition_transition_draw_count(
        pre.partitioning.state,
        now,
        pre.partitioning.config,
        pre.partitioning.nodes.len(),
    ) as int;
    let made = split + link_making_draw_count(pre, key);
    &&& post.config == pre.config
    &&& post.simulation_start == pre.simulation_start
    &&& split <= draws.len()
    &&& partition_transition_draws(
        pre.partitioning.state,
        now,
        pre.partitioning.config,
        pre.partitioning.nodes,
        draws.take(split),
    )
    &&& post.partitioning == (NetworkPartitionView {
        state: partition_after_transition(
            pre.partitioning.state,
            now,
            pre.partitioning.config,
            pre.partitioning.nodes,
            draws.take(split),
        ),
        ..pre.partitioning
    })
    &&& if post.partitioning.state.cuts(from, to) {
        draws.len() == split && out.len() == 0 && post.links == pre.links
    } else {
        &&& made <= draws.len()
        &&& !pre.links.contains_key(key) ==> link_up_draws(pre.config, draws.subrange(split, made))
        &&& post.links.contains_key(key)
        &&& post.links == pre.links.insert(key, post.links[key])
        &&& link_send(
            link_for(pre, from, to, now, draws.subrange(split, made)),
            message,
            now,
            draws.skip(made),
            post.links[key],
            out,
        )
    }
}

impl<M: Clone> Network<M> {
    /// A network of `nodes` without links yet, whole at `simulation_start`.
    pub fn new<S: ExponentialSampler>(
        simulation_start: Instant,
        config: NetworkConfig,
        nodes: Vec<NodeId>,
        rand: &mut SimRng<S>,
    ) -> (network: Network<M>)
        requires
            config.valid(),
        ensures
            final(rand).continues(old(rand).drawn()),
            partition_heal_draws(config, final(rand).drawn_since(old(rand).drawn())),
            network.inv(),
            network@.links == Map::<(NodeId, NodeId), LinkView<M>>::empty(),
            network@.config == config,
            network@.simulation_start == simulation_start,
            network@.partitioning.state == partition_heal_state(
                simulation_start,
                config,
                final(rand).drawn_since(old(rand).drawn()),
            ),
            network@.partitioning.nodes == nodes@,
            network@.partitioning.simulation_start == simulation_start,
    {
        let network = Network {
            links: Vec::new(),
            config,
            partitioning: NetworkPartition::new(simulation_start, nodes, config, rand),
            simulation_start,
        };
        assert(links_of(network.links@) =~= Map::<(NodeId, NodeId), LinkView<M>>::empty());
        network
    }

    /// What holds of a network between calls: it keeps at most one link for
    /// a pair, and every part of it goes by the one usable configuration.
    pub closed spec fn inv(&self) -> bool {
        &&& distinct_keys(self.links@)
        &&& self@.wf()
    }

    /// The partition of the network.
    pub fn partitioning(&self) -> (partitioning: &NetworkPartition)
        ensures
            partitioning@ == self@.partitioning,
    {
        &self.partitioning
    }

    /// The link between `from` and `to`, if one has been made.
    pub fn link_between(&self, from: NodeId, to: NodeId) -> (link: Option<&Link<M>>)
        requires
            self.inv(),
        ensures
            match link {
                Some(link) => self@.links.contains_key(spec_link_key(from, to)) && link@
                    == self@.links[spec_link_key(from, to)],
                None => !self@.links.contains_key(spec_link_key(from, to)),
            },
    {
        match self.find(link_key(from, to)) {
            Some(i) => {
                proof {
                    lemma_links_of_entry(self.links@, i as int);
                }
                Some(&self.links[i].link)
            },
            None => None,
        }
    }

    /// The number of links made so far.
    pub fn link_count(&self) -> (count: usize)
        requires
            self.inv(),
        ensures
            self@.links.dom().finite(),
            count == self@.links.dom().len(),
    {
        proof {
            lemma_links_of_len(self.links@);
        }
        self.links.len()
    }

    /// Finds the entry filed under `key`.
    fn find(&self, key: (NodeId, NodeId)) -> (found: Option<usize>)
        ensures
            match found {
                Some(i) => i < self.links@.len() && self.links@[i as int].key == key,
                None => !has_key(self.links@, key),
            },
    {
        let mut i: usize = 0;
        while i < self.links.len()
            invariant
                i <= self.links.len(),
                forall|j: int| 0 <= j < i ==> (#[trigger] self.links@[j]).key != key,
            decreases self.links.len() - i,
        {
            if self.links[i].key.0 == key.0 && self.links[i].key.1 == key.1 {
                return Some(i);
            }
            i += 1;
        }
        None
    }

    /// Sends `message`, which goes from `from` to `to`, at `now`, and
    /// returns what is to be delivered, each with its delay.
    pub fn send_between<S: ExponentialSampler>(
        &mut self,
        message: M,
        from: NodeId,
        to: NodeId,
        now: Instant,
        rand: &mut SimRng<S>,
    ) -> (out: Vec<DeliverMessage<M>>)
        requires
            old(self).inv(),
        ensures
            final(self).inv(),
            final(rand).continues(old(rand).drawn()),
            network_send(
                old(self)@,
                message,
                from,
                to,
                now,
                final(rand).drawn_since(old(rand).drawn()),
                final(self)@,
                out@,
            ),
            forall|i: int|
                0 <= i < out@.len() ==> final(self)@.config.possible_delay(
                    (#[trigger] out@[i]).delay,
                ),
    {
        let ghost start = rand.drawn();
        let ghost split_count = partition_transition_draw_count(
            self@.partitioning.state,
            now,
            self@.partitioning.config,
            self@.partitioning.nodes.len(),
        ) as int;
        if self.partitioning.is_partitioned(now, &from, &to, rand) {
            proof {
                let draws = rand.drawn_since(start);
                assert(draws.take(split_count) =~= draws);
            }
            return Vec::new();
        }
        let ghost split = rand.drawn();
        let bidirectional = link_key(from, to);
        let ghost before = self.links@;
        let position = match self.find(bidirectional) {
            Some(i) => i,
            None => {
                let link = Link::new(self.config, self.simulation_start, now, from, to, rand);
                self.links.push(LinkEntry { key: bidirectional, link });
                proof {
                    lemma_links_of_push(before, self.links@[before.len() as int]);
                    assert(self.links@ == before.push(self.links@[before.len() as int]));
                }
                self.links.len() - 1
            },
        };
        let ghost made = rand.drawn();
        let ghost made_count = split_count + link_making_draw_count(old(self)@, bidirectional);
        let ghost between = self.links@;
        let ghost link = between[position as int].link@;
        proof {
            lemma_links_of_entry(between, position as int);
            if has_key(before, bidirectional) {
                assert(between == before);
                lemma_links_of_entry(before, position as int);
                assert(made == split);
            }
            assert(made.skip(start.len() as int).subrange(split_count, made_count) =~= made.skip(
                split.len() as int,
            ));
            assert(link == link_for(
                old(self)@,
                from,
                to,
                now,
                made.skip(start.len() as int).subrange(split_count, made_count),
            ));
        }
        let out = self.links[position].link.send(message, now, rand);
        proof {
            assert(self.links@ == between.update(position as int, self.links@[position as int]));
            lemma_links_of_update(between, position as int, self.links@[position as int]);
            lemma_links_of_entry(self.links@, position as int);
            assert(links_of(self.links@) =~= links_of(before).insert(
                bidirectional,
                links_of(self.links@)[bidirectional],
            ));
            let draws = rand.drawn_since(start);
            assert(draws.take(split_count) =~= split.skip(start.len() as int));
            assert(draws.subrange(split_count, made_count) =~= made.skip(split.len() as int));
            assert(draws.skip(made_count) =~= rand.drawn_since(made));
            assert forall|i: int| 0 <= i < draws.len() implies (#[trigger] draws[i]).possible() by {
                if i < split_count {
                    assert(draws[i] == split.skip(start.len() as int)[i]);
                } else if i < made_count {
                    assert(draws[i] == made.skip(split.len() as int)[i - split_count]);
                } else {
                    assert(draws[i] == rand.drawn_since(made)[i - made_count]);
                }
            }
            lemma_link_delays_are_possible(
                link,
                message,
                now,
                rand.drawn_since(made),
                self.links@[position as int].link@,
                out@,
            );
        }
        out
    }
}

impl<M: ProtocolMessage> Network<M> {
    /// Sends `message` at `now`, from the source to the destination that it
    /// names, and returns what is to be delivered, each with its delay.
    pub fn send<S: ExponentialSampler>(
        &mut self,
        message: M,
        now: Instant,
        rand: &mut SimRng<S>,
    ) -> (out: Vec<DeliverMessage<M>>)
        requires
            old(self).inv(),
        ensures
            final(self).inv(),
            final(rand).continues(old(rand).drawn()),
            forall|i: int|
                0 <= i < out@.len() ==> final(self)@.config.possible_delay(
                    (#[trigger] out@[i]).delay,
                ),
            exists|from: NodeId, to: NodeId|
                reported_source(message, from) && reported_destination(message, to)
                    && #[trigger] network_send(
                    old(self)@,
                    message,
                    from,
                    to,
                    now,
                    final(rand).drawn_since(old(rand).drawn()),
                    final(self)@,
                    out@,
                ),
    {
        let from = message.source();
        let to = message.destination();
        self.send_between(message, from, to, now, rand)
    }
}

/// How the network takes `messages` one after the other, all at `now`:
/// `pre` is the network before, `draws` are the draws made over all of them,
/// `post` is the network after, and `outs[k]` is what the network returned
/// for `messages[k]`.
///
/// Each message is sent from the source to the destination that it names,
/// by its own stretch of the draws, and finds the network as the message
/// before left it.
pub open spec fn network_sends<M: ProtocolMessage>(
    pre: NetworkView<M>,
    messages: Seq<M>,
    now: Instant,
    draws: Seq<Draw>,
    post: NetworkView<M>,
    outs: Seq<Seq<DeliverMessage<M>>>,
) -> bool
    decreases messages.len(),
{
    if messages.len() == 0 {
        draws.len() == 0 && post == pre && outs.len() == 0
    } else {
        &&& outs.len() == messages.len()
        &&& exists|before: NetworkView<M>, earlier: int, from: NodeId, to: NodeId|
            {
                &&& 0 <= earlier <= draws.len()
                &&& reported_source(messages.last(), from)
                &&& reported_destination(messages.last(), to)
                &&& network_sends(
                    pre,
                    messages.drop_last(),
                    now,
                    draws.take(earlier),
                    before,
                    outs.drop_last(),
                )
                &&& #[trigger] network_send(
                    before,
                    messages.last(),
                    from,
                    to,
                    now,
                    draws.skip(earlier),
                    post,
                    outs.last(),
                )
            }
    }
}

/// What the network does with a message is settled by the draws: two sends
/// that start from the same network, with the same message between the same
/// nodes, at the same instant and by the same draws leave the same network
/// behind and hand out the same deliveries, each with the same delay. Only
/// the duplicate of a message, which is whatever its clone gives, is not
/// settled.
pub proof fn lemma_network_send_is_determined<M: Clone>(
    pre: NetworkView<M>,
    message: M,
    from: NodeId,
    to: NodeId,
    now: Instant,
    draws: Seq<Draw>,
    one: (NetworkView<M>, Seq<DeliverMessage<M>>),
    other: (NetworkView<M>, Seq<DeliverMessage<M>>),
)
    requires
        network_send(pre, message, from, to, now, draws, one.0, one.1),
        network_send(pre, message, from, to, now, draws, other.0, other.1),
    ensures
        one.0 == other.0,
        one.1.len() == other.1.len(),
        forall|i: int| 0 <= i < one.1.len() ==> (#[trigger] one.1[i]).delay == other.1[i].delay,
        forall|i: int|
            0 <= i < one.1.len() ==> (#[trigger] one.1[i]).message == other.1[i].message || (cloned(
                message,
                one.1[i].message,
            ) && cloned(message, other.1[i].message)),
{
    if one.0.partitioning.state.cuts(from, to) {
        assert(one.1 =~= other.1);
    } else {
        let key = spec_link_key(from, to);
        let split = partition_transition_draw_count(
            pre.partitioning.state,
            now,
            pre.partitioning.config,
            pre.partitioning.nodes.len(),
        ) as int;
        let made = split + link_making_draw_count(pre, key);
        let link = link_for(pre, from, to, now, draws.subrange(split, made));
        lemma_link_send_is_determined(
            link,
            message,
            now,
            draws.skip(made),
            (one.0.links[key], one.1),
            (other.0.links[key], other.1),
        );
        assert(one.0.links =~= other.0.links);
    }
}

/// Every delay that the network hands out lies within the configured
/// latency range.
pub proof fn lemma_deliveries_within_bounds<M: Clone>(
    pre: NetworkView<M>,
    message: M,
    from: NodeId,
    to: NodeId,
    now: Instant,
    draws: Seq<Draw>,
    post: NetworkView<M>,
    out: Seq<DeliverMessage<M>>,
)
    requires
        pre.wf(),
        network_send(pre, message, from, to, now, draws, post, out),
    ensures
        forall|i: int|
            0 <= i < out.len() ==> pre.config.min_message_latency.nanos <= (
            #[trigger] out[i]).delay.nanos <= pre.config.max_message_latency.nanos,
{
    if !post.partitioning.state.cuts(from, to) {
        let key = spec_link_key(from, to);
        let split = partition_transition_draw_count(
            pre.partitioning.state,
            now,
            pre.partitioning.config,
            pre.partitioning.nodes.len(),
        ) as int;
        let made = split + link_making_draw_count(pre, key);
        let link = link_for(pre, from, to, now, draws.subrange(split, made));
        assert(link.config == pre.config);
        lemma_link_delays_are_possible(link, message, now, draws.skip(made), post.links[key], out);
    }
}

/// While the network is split, nothing is delivered between a node of the
/// cut-off side and a node of the other side.
pub proof fn lemma_partition_cuts<M: Clone>(
    pre: NetworkView<M>,
    message: M,
    from: NodeId,
    to: NodeId,
    now: Instant,
    draws: Seq<Draw>,
    post: NetworkView<M>,
    out: Seq<DeliverMessage<M>>,
)
    requires
        network_send(pre, message, from, to, now, draws, post, out),
        post.partitioning.state matches PartitionStateView::Partition { side_a, .. }
            && side_a.contains(from) != side_a.contains(to),
    ensures
        out.len() == 0,
        post.links == pre.links,
{
}

/// Nothing crosses a split, whatever is sent beside it: where the network
/// returns a delivery for one of the messages that it takes one after the
/// other, the partition did not cut the source of that message off from its
/// destination when the message was sent. `at` is the network as that
/// message left it.
pub proof fn lemma_no_delivery_across_the_cut<M: ProtocolMessage>(
    pre: NetworkView<M>,
    messages: Seq<M>,
    now: Instant,
    draws: Seq<Draw>,
    post: NetworkView<M>,
    outs: Seq<Seq<DeliverMessage<M>>>,
    k: int,
)
    requires
        network_sends(pre, messages, now, draws, post, outs),
        0 <= k < outs.len(),
        outs[k].len() > 0,
    ensures
        exists|at: NetworkView<M>, used: int, from: NodeId, to: NodeId|
            {
                &&& 0 <= used <= draws.len()
                &&& #[trigger] network_sends(
                    pre,
                    messages.take(k + 1),
                    now,
                    draws.take(used),
                    at,
                    outs.take(k + 1),
                )
                &&& #[trigger] reported_source(messages[k], from)
                &&& #[trigger] reported_destination(messages[k], to)
                &&& !at.partitioning.state.cuts(from, to)
            },
    decreases messages.len(),
{
    let (before, earlier, from, to) = choose|
        before: NetworkView<M>,
        earlier: int,
        from: NodeId,
        to: NodeId,
    |
        {
            &&& 0 <= earlier <= draws.len()
            &&& reported_source(messages.last(), from)
            &&& reported_destination(messages.last(), to)
            &&& network_sends(
                pre,
                messages.drop_last(),
                now,
                draws.take(earlier),
                before,
                outs.drop_last(),
            )
            &&& #[trigger] network_send(
                before,
                messages.last(),
                from,
                to,
                now,
                draws.skip(earlier),
                post,
                outs.last(),
            )
        };
    if k == messages.len() - 1 {
        assert(messages.take(k + 1) =~= messages);
        assert(outs.take(k + 1) =~= outs);
        assert(draws.take(draws.len() as int) =~= draws);
        assert(network_sends(
            pre,
            messages.take(k + 1),
            now,
            draws.take(draws.len() as int),
            post,
            outs.take(k + 1),
        ));
        assert(reported_source(messages[k], from));
        assert(reported_destination(messages[k], to));
    } else {
        let shorter = draws.take(earlier);
        assert(outs.drop_last()[k] == outs[k]);
        lemma_no_delivery_across_the_cut(
            pre,
            messages.drop_last(),
            now,
            shorter,
            before,
            outs.drop_last(),
            k,
        );
        let (at, used, from, to) = choose|
            at: NetworkView<M>,
            used: int,
            from: NodeId,
            to: NodeId,
        |
            {
                &&& 0 <= used <= shorter.len()
                &&& #[trigger] network_sends(
                    pre,
                    messages.drop_last().take(k + 1),
                    now,
                    shorter.take(used),
                    at,
                    outs.drop_last().take(k + 1),
                )
                &&& #[trigger] reported_source(messages.drop_last()[k], from)
                &&& #[trigger] reported_destination(messages.drop_last()[k], to)
                &&& !at.partitioning.state.cuts(from, to)
            };
        assert(messages.drop_last().take(k + 1) =~= messages.take(k + 1));
        assert(outs.drop_last().take(k + 1) =~= outs.take(k + 1));
        assert(shorter.take(used) =~= draws.take(used));
        assert(messages.drop_last()[k] == messages[k]);
        assert(network_sends(
            pre,
            messages.take(k + 1),
            now,
            draws.take(used),
            at,
            outs.take(k + 1),
        ));
        assert(reported_source(messages[k], from));
        assert(reported_destination(messages[k], to));
    }
}

} // verus!
