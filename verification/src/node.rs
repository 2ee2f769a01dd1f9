//! A server together with its crashes.
//!
//! The wrapper lets a server crash and come back. While it is down it
//! neither ticks nor sees messages. Like a link, it catches up with the
//! clock only when it is touched.

use vstd::prelude::*;
use crate::config::FailureConfiguration;
use crate::model::DeterministicNode;
use crate::node_id::NodeId;
use crate::rng::{Draw, ExponentialSampler, SimRng};
use crate::time::Instant;
use crate::util::{sample_failure_time, spec_failure_time};

verus! {

#[derive(Debug, Clone, Copy, PartialEq, Eq, Structural)]
pub enum NodeState {
    /// The server runs. It crashes at `failure_time`, if ever and if
    /// allowed to.
    Normal { failure_time: Option<Instant> },
    /// The server is down until `recovery_time`.
    Failed { recovery_time: Instant },
}

/// What a server has to do to catch up with the clock.
#[derive(Clone, Copy, Debug, PartialEq, Eq, Structural)]
pub enum NodeTransition {
    /// Nothing: no change of state is due, or the crash that is due is not
    /// allowed.
    Stay,
    /// The server runs, its crash is due and allowed.
    Crash,
    /// The server is down and its recovery is due.
    Restart,
}

impl NodeState {
    pub open spec fn spec_is_failed(&self) -> bool {
        *self is Failed
    }

    pub open spec fn spec_is_normal(&self) -> bool {
        *self is Normal
    }

    #[verifier::when_used_as_spec(spec_is_failed)]
    pub fn is_failed(&self) -> (failed: bool)
        ensures
            failed == (*self is Failed),
    {
        match self {
            NodeState::Failed { .. } => true,
            NodeState::Normal { .. } => false,
        }
    }

    #[verifier::when_used_as_spec(spec_is_normal)]
    pub fn is_normal(&self) -> (normal: bool)
        ensures
            normal == (*self is Normal),
    {
        match self {
            NodeState::Normal { .. } => true,
            NodeState::Failed { .. } => false,
        }
    }

    /// The change of state that is due at `now`, where `can_fail` tells
    /// whether a crash is allowed.
    pub open spec fn spec_pending(&self, now: Instant, can_fail: bool) -> NodeTransition {
        match *self {
            NodeState::Normal { failure_time: Some(at) } => if now.nanos >= at.nanos && can_fail {
                NodeTransition::Crash
            } else {
                NodeTransition::Stay
            },
            NodeState::Normal { failure_time: None } => NodeTransition::Stay,
            NodeState::Failed { recovery_time } => if now.nanos >= recovery_time.nanos {
                NodeTransition::Restart
            } else {
                NodeTransition::Stay
            },
        }
    }

    /// Tells which change of state is due at `now`.
    #[verifier::when_used_as_spec(spec_pending)]
    pub fn pending(&self, now: Instant, can_fail: bool) -> (due: NodeTransition)
        ensures
            due == self.spec_pending(now, can_fail),
    {
        match self {
            NodeState::Normal { failure_time: Some(at) } => {
                if now.has_reached(*at) && can_fail {
                    NodeTransition::Crash
                } else {
                    NodeTransition::Stay
                }
            },
            NodeState::Normal { failure_time: None } => NodeTransition::Stay,
            NodeState::Failed { recovery_time } => {
                if now.has_reached(*recovery_time) {
                    NodeTransition::Restart
                } else {
                    NodeTransition::Stay
                }
            },
        }
    }

    /// Whether the state is one that a server can reach under `config`: a
    /// crash lies ahead, or has happened, only where servers can crash.
    pub open spec fn reachable(self, config: FailureConfiguration) -> bool {
        match self {
            NodeState::Normal { failure_time: None } => true,
            _ => config.mean_time_between_failures.is_some(),
        }
    }
}

/// The number of draws by which a server starts.
pub open spec fn node_start_draw_count(config: FailureConfiguration) -> nat {
    if config.mean_time_between_failures.is_some() {
        1
    } else {
        0
    }
}

/// Whether `draws` are the draws by which a server starts: a span with the
/// mean time between failures, if the configuration lets servers crash.
pub open spec fn node_start_draws(config: FailureConfiguration, draws: Seq<Draw>) -> bool {
    &&& draws.len() == node_start_draw_count(config)
    &&& config.mean_time_between_failures matches Some(mean_time) ==> draws[0] is Span
        && draws[0]->mean == mean_time
}

/// The state of a server that has started at `now` by `draws`: running, with
/// the next crash as long after `now` as the span drawn, or with none if the
/// configuration lets no servers crash.
pub open spec fn node_start_state(
    now: Instant,
    config: FailureConfiguration,
    draws: Seq<Draw>,
) -> NodeState {
    NodeState::Normal {
        failure_time: if config.mean_time_between_failures.is_some() {
            Some(spec_failure_time(now, draws[0]->span))
        } else {
            None
        },
    }
}

/// The number of draws by which a server in the state `pre` catches up with
/// the clock at `now`.
pub open spec fn node_transition_draw_count(
    pre: NodeState,
    now: Instant,
    can_fail: bool,
    config: FailureConfiguration,
) -> nat {
    match pre.spec_pending(now, can_fail) {
        NodeTransition::Stay => 0,
        NodeTransition::Crash => 1,
        NodeTransition::Restart => node_start_draw_count(config) + 1,
    }
}

/// Whether `draws` are the draws by which a server in the state `pre`
/// catches up with the clock at `now`: none if no change is due; if it
/// crashes, a span with the mean time between failures, for the time that it
/// stays down; and if it restarts, the draws of a start and then 64 bits for
/// the nonce.
pub open spec fn node_transition_draws(
    pre: NodeState,
    now: Instant,
    can_fail: bool,
    config: FailureConfiguration,
    draws: Seq<Draw>,
) -> bool {
    let started = node_start_draw_count(config) as int;
    match pre.spec_pending(now, can_fail) {
        NodeTransition::Stay => draws.len() == 0,
        NodeTransition::Crash => {
            &&& draws.len() == 1
            &&& draws[0] is Span
            &&& config.mean_time_between_failures == Some(draws[0]->mean)
        },
        NodeTransition::Restart => {
            &&& draws.len() == started + 1
            &&& node_start_draws(config, draws.take(started))
            &&& draws[started] is Bits
        },
    }
}

/// The state of a server that was in the state `pre` and has caught up with
/// the clock at `now` by `draws`.
pub open spec fn node_after_transition(
    pre: NodeState,
    now: Instant,
    can_fail: bool,
    config: FailureConfiguration,
    draws: Seq<Draw>,
) -> NodeState {
    match pre.spec_pending(now, can_fail) {
        NodeTransition::Stay => pre,
        NodeTransition::Crash => NodeState::Failed {
            recovery_time: spec_failure_time(now, draws[0]->span),
        },
        NodeTransition::Restart => node_start_state(
            now,
            config,
            draws.take(node_start_draw_count(config) as int),
        ),
    }
}

#[derive(Debug)]
pub struct Node<N: DeterministicNode> {
    node: N,
    state: NodeState,
    failure_config: FailureConfiguration,
    replica_count: usize,
    start_time: Instant,
}

/// A wrapped server as contracts see it.
pub struct NodeView<N> {
    pub node: N,
    pub state: NodeState,
    pub failure_config: FailureConfiguration,
    pub replica_count: usize,
    pub start_time: Instant,
}

impl<N> NodeView<N> {
    /// A crash lies ahead of the server, or has happened, only where the
    /// configuration lets servers crash.
    pub open spec fn wf(self) -> bool {
        self.state.reachable(self.failure_config)
    }
}

impl<N: DeterministicNode> View for Node<N> {
    type V = NodeView<N>;

    closed spec fn view(&self) -> NodeView<N> {
        NodeView {
            node: self.node,
            state: self.state,
            failure_config: self.failure_config,
            replica_count: self.replica_count,
            start_time: self.start_time,
        }
    }
}

/// How a touch at `now` changes a wrapped server: `pre` is the server
/// before, `draws` are the draws made, and `post` is the server after it has
/// caught up with the clock.
///
/// Nothing but the state changes, except that a server that restarts has
/// been told to recover.
pub open spec fn node_catches_up<N>(
    pre: NodeView<N>,
    now: Instant,
    can_fail: bool,
    draws: Seq<Draw>,
    post: NodeView<N>,
) -> bool {
    &&& post.failure_config == pre.failure_config
    &&& post.replica_count == pre.replica_count
    &&& post.start_time == pre.start_time
    &&& node_transition_draws(pre.state, now, can_fail, pre.failure_config, draws)
    &&& post.state == node_after_transition(pre.state, now, can_fail, pre.failure_config, draws)
    &&& pre.state.spec_pending(now, can_fail) != NodeTransition::Restart ==> post.node == pre.node
}

impl<N: DeterministicNode> Node<N> {
    /// Wraps `node`, which starts at `start_time` as one of
    /// `replica_count` servers. Its first crash is drawn if the
    /// configuration lets servers crash.
    pub fn new<S: ExponentialSampler>(
        node: N,
        failure_config: FailureConfiguration,
        rng: &mut SimRng<S>,
        start_time: Instant,
        replica_count: usize,
    ) -> (wrapped: Node<N>)
        ensures
            final(rng).continues(old(rng).drawn()),
            node_start_draws(failure_config, final(rng).drawn_since(old(rng).drawn())),
            wrapped@.wf(),
            wrapped@.node == node,
            wrapped@.state == node_start_state(
                start_time,
                failure_config,
                final(rng).drawn_since(old(rng).drawn()),
            ),
            wrapped@.failure_config == failure_config,
            wrapped@.replica_count == replica_count,
            wrapped@.start_time == start_time,
    {
        let failure_time = sample_next_failure(start_time, &failure_config, rng);
        Node {
            node,
            state: NodeState::Normal { failure_time },
            failure_config,
            replica_count,
            start_time,
        }
    }

    pub fn node(&self) -> (node: &N)
        ensures
            *node == self@.node,
    {
        &self.node
    }

    /// The state of the wrapper as it is, not caught up with the clock.
    pub fn state(&self) -> (state: NodeState)
        ensures
            state == self@.state,
    {
        self.state
    }

    /// The ID that the server gives.
    pub fn id(&self) -> (id: NodeId)
        ensures
            call_ensures(N::id, (&self@.node,), id),
    {
        self.node.id()
    }

    /// Whether the server is down.
    pub open spec fn spec_is_failed(&self) -> bool {
        self@.state is Failed
    }

    /// Whether the server takes part: it is neither down nor, by its own
    /// word, recovering.
    pub fn is_up(&self) -> (up: bool)
        ensures
            self.spec_is_failed() ==> !up,
            !self.spec_is_failed() ==> call_ensures(N::is_recovering, (&self@.node,), !up),
    {
        !(self.state.is_failed() || self.node.is_recovering())
    }

    /// Lets the server catch up with the clock and tells whether it is down
    /// then. It crashes if its crash is due and `can_fail` allows it; it
    /// restarts, and is told to recover, if its recovery is due.
    pub fn has_failed<S: ExponentialSampler>(
        &mut self,
        now: Instant,
        can_fail: bool,
        rand: &mut SimRng<S>,
    ) -> (failed: bool)
        requires
            old(self)@.wf(),
        ensures
            final(self)@.wf(),
            final(rand).continues(old(rand).drawn()),
            node_catches_up(
                old(self)@,
                now,
                can_fail,
                final(rand).drawn_since(old(rand).drawn()),
                final(self)@,
            ),
            failed == final(self).spec_is_failed(),
            old(self)@.state.spec_pending(now, can_fail) == NodeTransition::Restart ==> exists|
                node: &mut N,
                nonce: u64,
            |
                *node == old(self)@.node && *final(node) == final(self)@.node
                    && nonce == final(rand).drawn().last()->bits && #[trigger] call_ensures(
                    N::recover,
                    (node, now, nonce, old(self)@.replica_count),
                    (),
                ),
    {
        match self.state.pending(now, can_fail) {
            NodeTransition::Stay => {
                assert(rand.drawn_since(old(rand).drawn()) =~= Seq::<Draw>::empty());
            },
            NodeTransition::Crash => {
                match self.failure_config.mean_time_between_failures {
                    Some(mean_time_between_failures) => {
                        let recovery_time = sample_failure_time(
                            now,
                            mean_time_between_failures,
                            rand,
                        );
                        assert(rand.drawn_since(old(rand).drawn()) =~= seq![rand.drawn().last()]);
                        self.state = NodeState::Failed { recovery_time };
                    },
                    None => {
                        assert(false);
                    },
                }
            },
            NodeTransition::Restart => {
                let failure_time = sample_next_failure(now, &self.failure_config, rand);
                let ghost started = rand.drawn();
                let nonce = rand.next_u64();
                proof {
                    assert(rand.drawn().last()->bits == nonce);
                    let draws = rand.drawn_since(old(rand).drawn());
                    let count = node_start_draw_count(self.failure_config) as int;
                    assert(draws.take(count) =~= started.skip(old(rand).drawn().len() as int));
                    assert(draws[count] == rand.drawn().last());
                    assert forall|i: int| 0 <= i < draws.len() implies (
                    #[trigger] draws[i]).possible() by {
                        if i < count {
                            assert(draws[i] == started.skip(old(rand).drawn().len() as int)[i]);
                        }
                    }
                }
                self.node.recover(now, nonce, self.replica_count);
                self.state = NodeState::Normal { failure_time };
                assert(exists|node: &mut N, drawn: u64|
                    *node == old(self)@.node && *final(node) == self@.node && drawn
                        == rand.drawn().last()->bits && #[trigger] call_ensures(
                        N::recover,
                        (node, now, drawn, old(self)@.replica_count),
                        (),
                    ));
            },
        }
        self.state.is_failed()
    }

    /// Lets the server tick at `now`, unless it is down. A tick never makes
    /// a server crash.
    pub fn tick<S: ExponentialSampler>(&mut self, now: Instant, rand: &mut SimRng<S>) -> (out: Vec<
        N::Message,
    >)
        requires
            old(self)@.wf(),
        ensures
            final(self)@.wf(),
            final(rand).continues(old(rand).drawn()),
            node_handles(
                old(self)@,
                now,
                false,
                final(rand).drawn_since(old(rand).drawn()),
                final(self)@,
                out@,
            ),
            !final(self).spec_is_failed() && old(self)@.state.spec_pending(now, false)
                != NodeTransition::Restart ==> exists|node: &mut N|
                *node == old(self)@.node && *final(node) == final(self)@.node
                    && #[trigger] call_ensures(N::tick, (node, now), out),
            !final(self).spec_is_failed() && old(self)@.state.spec_pending(now, false)
                == NodeTransition::Restart ==> exists|first: &mut N, nonce: u64, node: &mut N|
                *first == old(self)@.node && nonce == final(rand).drawn().last()->bits
                    && #[trigger] call_ensures(
                    N::recover,
                    (first, now, nonce, old(self)@.replica_count),
                    (),
                ) && *node == *final(first) && *final(node) == final(self)@.node
                    && #[trigger] call_ensures(N::tick, (node, now), out),
    {
        if self.has_failed(now, false, rand) {
            return Vec::new();
        }
        self.node.tick(now)
    }

    /// Hands `msg` to the server at `now`, unless it is down. The message
    /// may find the server crashing, if `can_fail` allows it.
    pub fn process_message<S: ExponentialSampler>(
        &mut self,
        msg: N::Message,
        now: Instant,
        can_fail: bool,
        rand: &mut SimRng<S>,
    ) -> (out: Vec<N::Message>)
        requires
            old(self)@.wf(),
        ensures
            final(self)@.wf(),
            final(rand).continues(old(rand).drawn()),
            node_handles(
                old(self)@,
                now,
                can_fail,
                final(rand).drawn_since(old(rand).drawn()),
                final(self)@,
                out@,
            ),
            !final(self).spec_is_failed() && old(self)@.state.spec_pending(now, can_fail)
                != NodeTransition::Restart ==> exists|node: &mut N|
                *node == old(self)@.node && *final(node) == final(self)@.node
                    && #[trigger] call_ensures(N::process_message, (node, msg, now), out),
            !final(self).spec_is_failed() && old(self)@.state.spec_pending(now, can_fail)
                == NodeTransition::Restart ==> exists|first: &mut N, nonce: u64, node: &mut N|
                *first == old(self)@.node && nonce == final(rand).drawn().last()->bits
                    && #[trigger] call_ensures(
                    N::recover,
                    (first, now, nonce, old(self)@.replica_count),
                    (),
                ) && *node == *final(first) && *final(node) == final(self)@.node
                    && #[trigger] call_ensures(N::process_message, (node, msg, now), out),
    {
        if self.has_failed(now, can_fail, rand) {
            return Vec::new();
        }
        self.node.process_message(msg, now)
    }
}

/// How a tick or a message at `now` changes a wrapped server and what the
/// server sends in answer: `pre` is the server before, `draws` are the draws
/// made, `post` is the server after, `out` what it sends.
///
/// The server first catches up with the clock, where it crashes only if
/// `can_fail` allows it. If it is down then, it is not asked and sends
/// nothing. Otherwise the server itself ticks or processes the message,
/// which leaves the wrapper's state alone.
pub open spec fn node_handles<N, M>(
    pre: NodeView<N>,
    now: Instant,
    can_fail: bool,
    draws: Seq<Draw>,
    post: NodeView<N>,
    out: Seq<M>,
) -> bool {
    &&& post.failure_config == pre.failure_config
    &&& post.replica_count == pre.replica_count
    &&& post.start_time == pre.start_time
    &&& node_transition_draws(pre.state, now, can_fail, pre.failure_config, draws)
    &&& post.state == node_after_transition(pre.state, now, can_fail, pre.failure_config, draws)
    &&& post.state is Failed ==> out.len() == 0 && post.node == pre.node
}

/// Draws the instant of the next crash of a server that starts at `now`, if
/// the configuration lets servers crash.
pub fn sample_next_failure<S: ExponentialSampler>(
    now: Instant,
    config: &FailureConfiguration,
    rand: &mut SimRng<S>,
) -> (failure_time: Option<Instant>)
    ensures
        final(rand).continues(old(rand).drawn()),
        node_start_draws(*config, final(rand).drawn_since(old(rand).drawn())),
        (NodeState::Normal { failure_time }) == node_start_state(
            now,
            *config,
            final(rand).drawn_since(old(rand).drawn()),
        ),
{
    match config.mean_time_between_failures {
        Some(mean_time_between_failures) => {
            let at = sample_failure_time(now, mean_time_between_failures, rand);
            assert(rand.drawn_since(old(rand).drawn()) =~= seq![rand.drawn().last()]);
            Some(at)
        },
        None => {
            assert(rand.drawn_since(old(rand).drawn()) =~= Seq::<Draw>::empty());
            None
        },
    }
}

/// A server does not crash unless it is allowed to: where `can_fail` is
/// not set, a server that is down afterwards was down before.
pub proof fn lemma_crash_needs_leave(
    pre: NodeState,
    now: Instant,
    config: FailureConfiguration,
    draws: Seq<Draw>,
)
    ensures
        node_after_transition(pre, now, false, config, draws) is Failed ==> pre is Failed,
{
}

} // verus!
