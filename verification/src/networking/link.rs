//! The channel between one pair of nodes.
//!
//! A link is up, down for a while, or holding messages for a while. It moves
//! between these states lazily: whenever a message is sent over it, it first
//! catches up with the clock.

use vstd::prelude::*;
use crate::networking::config::NetworkConfig;
use crate::networking::network::DeliverMessage;
use crate::node_id::NodeId;
use crate::rng::{Draw, ExponentialSampler, SimRng};
use crate::time::{Duration, Instant};
use crate::util::{sample_failure_time, spec_failure_time};

verus! {

#[derive(Debug, PartialEq)]
pub enum LinkState<M> {
    /// Messages pass. The link fails at `expected_failure`, if ever.
    Up { expected_failure: Option<Instant> },
    /// Messages are dropped until `expected_recovery`.
    TempFailure { expected_recovery: Instant },
    /// Messages are kept until `expected_recovery` and then released in the
    /// order in which they were sent.
    TempHold { expected_recovery: Instant, queued_messages: Vec<M> },
}

/// The state of a link as contracts see it.
pub enum LinkStateView<M> {
    Up { expected_failure: Option<Instant> },
    TempFailure { expected_recovery: Instant },
    TempHold { expected_recovery: Instant, queued_messages: Seq<M> },
}

impl<M> View for LinkState<M> {
    type V = LinkStateView<M>;

    open spec fn view(&self) -> LinkStateView<M> {
        match *self {
            LinkState::Up { expected_failure } => LinkStateView::Up { expected_failure },
            LinkState::TempFailure { expected_recovery } => LinkStateView::TempFailure {
                expected_recovery,
            },
            LinkState::TempHold { expected_recovery, queued_messages } => LinkStateView::TempHold {
                expected_recovery,
                queued_messages: queued_messages@,
            },
        }
    }
}

impl<M: Clone> Clone for LinkState<M> {
    fn clone(&self) -> (copy: LinkState<M>)
        ensures
            match *self {
                LinkState::TempHold { expected_recovery, queued_messages } => {
                    &&& copy matches LinkState::TempHold {
                        expected_recovery: recovery,
                        queued_messages: queue,
                    }
                    &&& recovery == expected_recovery
                    &&& queue@.len() == queued_messages@.len()
                    &&& forall|i: int|
                        0 <= i < queue@.len() ==> cloned(queued_messages@[i], #[trigger] queue@[i])
                },
                _ => copy@ == self@,
            },
    {
        match self {
            LinkState::Up { expected_failure } => LinkState::Up {
                expected_failure: *expected_failure,
            },
            LinkState::TempFailure { expected_recovery } => LinkState::TempFailure {
                expected_recovery: *expected_recovery,
            },
            LinkState::TempHold { expected_recovery, queued_messages } => LinkState::TempHold {
                expected_recovery: *expected_recovery,
                queued_messages: queued_messages.clone(),
            },
        }
    }
}

/// What a link has to do to catch up with the clock.
#[derive(Clone, Copy, Debug, PartialEq, Eq, Structural)]
pub enum LinkTransition {
    /// Nothing: no change of state is due.
    Stay,
    /// The link is up and its failure is due.
    Fail,
    /// The link is down or holding and its recovery is due.
    Recover,
}

impl<M> LinkStateView<M> {
    /// The change of state that is due at `now`.
    pub open spec fn pending(self, now: Instant) -> LinkTransition {
        match self {
            LinkStateView::Up { expected_failure: Some(at) } => if now.nanos >= at.nanos {
                LinkTransition::Fail
            } else {
                LinkTransition::Stay
            },
            LinkStateView::Up { expected_failure: None } => LinkTransition::Stay,
            LinkStateView::TempFailure { expected_recovery } => if now.nanos
                >= expected_recovery.nanos {
                LinkTransition::Recover
            } else {
                LinkTransition::Stay
            },
            LinkStateView::TempHold { expected_recovery, .. } => if now.nanos
                >= expected_recovery.nanos {
                LinkTransition::Recover
            } else {
                LinkTransition::Stay
            },
        }
    }

    /// The messages that the link holds, oldest first.
    pub open spec fn held(self) -> Seq<M> {
        match self {
            LinkStateView::TempHold { queued_messages, .. } => queued_messages,
            _ => Seq::empty(),
        }
    }

    /// The messages that leave the hold queue when the link catches up with
    /// the clock at `now`: all that it holds if it recovers, and none
    /// otherwise.
    pub open spec fn released(self, now: Instant) -> Seq<M> {
        if self.pending(now) == LinkTransition::Recover {
            self.held()
        } else {
            Seq::empty()
        }
    }
}

/// The number of draws by which a link comes up.
pub open spec fn link_up_draw_count(config: NetworkConfig) -> nat {
    if config.mean_time_between_link_failures.is_some() {
        1
    } else {
        0
    }
}

/// Whether `draws` are the draws by which a link comes up: a span with the
/// mean time between link failures, if the configuration lets links fail.
pub open spec fn link_up_draws(config: NetworkConfig, draws: Seq<Draw>) -> bool {
    &&& draws.len() == link_up_draw_count(config)
    &&& config.mean_time_between_link_failures matches Some(mean_time) ==> draws[0] is Span
        && draws[0]->mean == mean_time
}

/// The state of a link that has come up at `now` by `draws`: up, with the
/// next failure as long after `now` as the span drawn, or with none if the
/// configuration lets no links fail.
pub open spec fn link_up_state<M>(
    now: Instant,
    config: NetworkConfig,
    draws: Seq<Draw>,
) -> LinkStateView<M> {
    LinkStateView::Up {
        expected_failure: if config.mean_time_between_link_failures.is_some() {
            Some(spec_failure_time(now, draws[0]->span))
        } else {
            None
        },
    }
}

/// Whether `draws` are the draws by which a link fails: a coin with the
/// hold probability, then a span with the mean link recovery time.
pub open spec fn link_down_draws(config: NetworkConfig, draws: Seq<Draw>) -> bool {
    &&& draws.len() == 2
    &&& draws[0] is Coin
    &&& draws[0]->chance == config.hold_probability
    &&& draws[0].possible()
    &&& draws[1] is Span
    &&& draws[1]->mean == config.mean_link_recovery_time
}

/// The state of a link that has failed at `now` by `draws`: holding, with
/// nothing held yet, if the coin shows heads, and dropping otherwise, until
/// as long after `now` as the span drawn.
pub open spec fn link_down_state<M>(now: Instant, draws: Seq<Draw>) -> LinkStateView<M> {
    if draws[0]->heads {
        LinkStateView::TempHold {
            expected_recovery: spec_failure_time(now, draws[1]->span),
            queued_messages: Seq::empty(),
        }
    } else {
        LinkStateView::TempFailure { expected_recovery: spec_failure_time(now, draws[1]->span) }
    }
}

/// The number of draws by which a link in the state `pre` catches up with
/// the clock at `now`.
pub open spec fn link_transition_draw_count<M>(
    pre: LinkStateView<M>,
    now: Instant,
    config: NetworkConfig,
) -> nat {
    match pre.pending(now) {
        LinkTransition::Stay => 0,
        LinkTransition::Fail => 2,
        LinkTransition::Recover => link_up_draw_count(config),
    }
}

/// Whether `draws` are the draws by which a link in the state `pre` catches
/// up with the clock at `now`: none if no change is due, those of a failure
/// if its failure is due, and those of coming up if its recovery is due.
pub open spec fn link_transition_draws<M>(
    pre: LinkStateView<M>,
    now: Instant,
    config: NetworkConfig,
    draws: Seq<Draw>,
) -> bool {
    match pre.pending(now) {
        LinkTransition::Stay => draws.len() == 0,
        LinkTransition::Fail => link_down_draws(config, draws),
        LinkTransition::Recover => link_up_draws(config, draws),
    }
}

/// The state of a link that was in the state `pre` and has caught up with
/// the clock at `now` by `draws`.
pub open spec fn link_after_transition<M>(
    pre: LinkStateView<M>,
    now: Instant,
    config: NetworkConfig,
    draws: Seq<Draw>,
) -> LinkStateView<M> {
    match pre.pending(now) {
        LinkTransition::Stay => pre,
        LinkTransition::Fail => link_down_state(now, draws),
        LinkTransition::Recover => link_up_state(now, config, draws),
    }
}

/// What an up link hands to the network for `message` by `draws`, after
/// `released` has left the hold queue.
///
/// The first draw is a coin with the duplicate probability. The released
/// messages go out in their order, then the message: twice if the coin shows
/// heads, a clone first, and once otherwise. For each message that goes out
/// one span is drawn with the latency mean, in the order of going out, and
/// the delay of the message is computed from it.
pub open spec fn link_delivers<M: Clone>(
    out: Seq<DeliverMessage<M>>,
    released: Seq<M>,
    message: M,
    config: NetworkConfig,
    draws: Seq<Draw>,
) -> bool {
    let n = released.len() as int;
    &&& draws.len() == 1 + out.len()
    &&& draws[0] is Coin
    &&& draws[0]->chance == config.duplicate_probability
    &&& draws[0].possible()
    &&& out.len() == if draws[0]->heads {
        n + 2
    } else {
        n + 1
    }
    &&& forall|i: int| 0 <= i < n ==> (#[trigger] out[i]).message == released[i]
    &&& draws[0]->heads ==> cloned(message, out[n].message)
    &&& out[out.len() - 1].message == message
    &&& forall|i: int|
        0 <= i < out.len() ==> {
            &&& draws[1 + i] is Span
            &&& draws[1 + i]->mean == config.spec_latency_mean()
            &&& (#[trigger] out[i]).delay == config.spec_delay(draws[1 + i]->span)
        }
}

pub struct Link<M> {
    state: LinkState<M>,
    config: NetworkConfig,
    simulation_start: Instant,
    from: NodeId,
    to: NodeId,
}

/// A link as contracts see it.
pub struct LinkView<M> {
    pub state: LinkStateView<M>,
    pub config: NetworkConfig,
    pub simulation_start: Instant,
    pub from: NodeId,
    pub to: NodeId,
}

impl<M> View for Link<M> {
    type V = LinkView<M>;

    closed spec fn view(&self) -> LinkView<M> {
        LinkView {
            state: self.state@,
            config: self.config,
            simulation_start: self.simulation_start,
            from: self.from,
            to: self.to,
        }
    }
}

/// How send changes a link and what it hands to the network: `pre` is the
/// link before, `draws` are the draws made, `post` is the link after, `out`
/// the deliveries.
///
/// The link first catches up with the clock. If it is up then, the message
/// goes out behind whatever the hold queue released. If it holds, the message
/// joins the end of the queue. If it drops, the message is gone.
pub open spec fn link_send<M: Clone>(
    pre: LinkView<M>,
    message: M,
    now: Instant,
    draws: Seq<Draw>,
    post: LinkView<M>,
    out: Seq<DeliverMessage<M>>,
) -> bool {
    let count = link_transition_draw_count(pre.state, now, pre.config) as int;
    let caught_up = link_after_transition(pre.state, now, pre.config, draws.take(count));
    &&& post.config == pre.config
    &&& post.simulation_start == pre.simulation_start
    &&& post.from == pre.from
    &&& post.to == pre.to
    &&& count <= draws.len()
    &&& link_transition_draws(pre.state, now, pre.config, draws.take(count))
    &&& match caught_up {
        LinkStateView::Up { .. } => post.state == caught_up && link_delivers(
            out,
            pre.state.released(now),
            message,
            pre.config,
            draws.skip(count),
        ),
        LinkStateView::TempFailure { .. } => post.state == caught_up && draws.len() == count
            && out.len() == 0,
        LinkStateView::TempHold { expected_recovery, queued_messages } => post.state == (
        LinkStateView::TempHold {
            expected_recovery,
            queued_messages: queued_messages.push(message),
        }) && draws.len() == count && out.len() == 0,
    }
}

impl<M> LinkState<M> {
    /// Tells which change of state is due at `now`.
    pub fn pending(&self, now: Instant) -> (due: LinkTransition)
        ensures
            due == self@.pending(now),
    {
        match self {
            LinkState::Up { expected_failure: Some(at) } => {
                if now.has_reached(*at) {
                    LinkTransition::Fail
                } else {
                    LinkTransition::Stay
                }
            },
            LinkState::Up { expected_failure: None } => LinkTransition::Stay,
            LinkState::TempFailure { expected_recovery } => {
                if now.has_reached(*expected_recovery) {
                    LinkTransition::Recover
                } else {
                    LinkTransition::Stay
                }
            },
            LinkState::TempHold { expected_recovery, .. } => {
                if now.has_reached(*expected_recovery) {
                    LinkTransition::Recover
                } else {
                    LinkTransition::Stay
                }
            },
        }
    }
}

impl<M: Clone> Link<M> {
    /// A link between `from` and `to` that comes up at `now`.
    pub fn new<S: ExponentialSampler>(
        config: NetworkConfig,
        simulation_start: Instant,
        now: Instant,
        from: NodeId,
        to: NodeId,
        rand: &mut SimRng<S>,
    ) -> (link: Link<M>)
        ensures
            final(rand).continues(old(rand).drawn()),
            link_up_draws(config, final(rand).drawn_since(old(rand).drawn())),
            link@.state == link_up_state::<M>(
                now,
                config,
                final(rand).drawn_since(old(rand).drawn()),
            ),
            link@.config == config,
            link@.simulation_start == simulation_start,
            link@.from == from,
            link@.to == to,
    {
        Link { state: Self::gen_up_state(now, rand, &config), config, simulation_start, from, to }
    }

    /// The state of a link that comes up at `now`: up, with the next failure
    /// drawn if the configuration lets links fail.
    pub fn gen_up_state<S: ExponentialSampler>(
        now: Instant,
        rand: &mut SimRng<S>,
        config: &NetworkConfig,
    ) -> (state: LinkState<M>)
        ensures
            final(rand).continues(old(rand).drawn()),
            link_up_draws(*config, final(rand).drawn_since(old(rand).drawn())),
            state@ == link_up_state::<M>(
                now,
                *config,
                final(rand).drawn_since(old(rand).drawn()),
            ),
    {
        match config.mean_time_between_link_failures {
            None => {
                assert(rand.drawn_since(old(rand).drawn()) =~= Seq::<Draw>::empty());
                LinkState::Up { expected_failure: None }
            },
            Some(mtf) => {
                let expected_failure = sample_failure_time(now, mtf, rand);
                assert(rand.drawn_since(old(rand).drawn()) =~= seq![rand.drawn().last()]);
                LinkState::Up { expected_failure: Some(expected_failure) }
            },
        }
    }

    /// The state of the link as it is, not caught up with the clock.
    pub fn state(&self) -> (state: &LinkState<M>)
        ensures
            state@ == self@.state,
    {
        &self.state
    }

    /// Puts the link into the state `next` and hands out the messages that
    /// it held.
    pub fn replace_state(&mut self, next: LinkState<M>) -> (released: Vec<M>)
        ensures
            final(self)@ == (LinkView { state: next@, ..old(self)@ }),
            released@ == old(self)@.state.held(),
    {
        let mut previous = next;
        std::mem::swap(&mut self.state, &mut previous);
        match previous {
            LinkState::TempHold { queued_messages, .. } => queued_messages,
            _ => Vec::new(),
        }
    }

    /// Lets the link catch up with the clock: it fails if its failure is due
    /// and recovers if its recovery is due. Returns the messages that a
    /// recovery released from the hold queue, oldest first.
    pub fn check_state_transition<S: ExponentialSampler>(
        &mut self,
        now: Instant,
        rand: &mut SimRng<S>,
    ) -> (released: Vec<M>)
        requires
            old(self)@.config.valid(),
        ensures
            final(rand).continues(old(rand).drawn()),
            link_transition_draws(
                old(self)@.state,
                now,
                old(self)@.config,
                final(rand).drawn_since(old(rand).drawn()),
            ),
            final(self)@ == (LinkView {
                state: link_after_transition(
                    old(self)@.state,
                    now,
                    old(self)@.config,
                    final(rand).drawn_since(old(rand).drawn()),
                ),
                ..old(self)@
            }),
            released@ == old(self)@.state.released(now),
    {
        match self.state.pending(now) {
            LinkTransition::Stay => {
                assert(rand.drawn_since(old(rand).drawn()) =~= Seq::<Draw>::empty());
                Vec::new()
            },
            LinkTransition::Fail => {
                let hold = rand.gen_bool(self.config.hold_probability);
                let ghost flipped = rand.drawn();
                let expected_recovery = sample_failure_time(
                    now,
                    self.config.mean_link_recovery_time,
                    rand,
                );
                assert(rand.drawn_since(old(rand).drawn()) =~= seq![
                    flipped.last(),
                    rand.drawn().last(),
                ]);
                let next = if hold {
                    LinkState::TempHold { expected_recovery, queued_messages: Vec::new() }
                } else {
                    LinkState::TempFailure { expected_recovery }
                };
                self.replace_state(next)
            },
            LinkTransition::Recover => {
                let next = Self::gen_up_state(now, rand, &self.config);
                self.replace_state(next)
            },
        }
    }

    /// Draws the delay of one message: one span with the latency mean, from
    /// which the delay is computed.
    pub fn calculate_delay<S: ExponentialSampler>(&self, rand: &mut SimRng<S>) -> (delay: Duration)
        requires
            self@.config.valid(),
        ensures
            self@.config.possible_delay(delay),
            exists|span: Duration|
                final(rand).drawn() == old(rand).drawn().push(
                    Draw::Span { mean: self@.config.spec_latency_mean(), span },
                ) && delay == #[trigger] self@.config.spec_delay(span),
    {
        let sample = rand.sample_exponential(self.config.latency_mean());
        self.config.delay_from_sample(sample)
    }

    /// Sends `message` over the link at `now` and returns what the network
    /// is to deliver, each with its delay.
    pub fn send<S: ExponentialSampler>(
        &mut self,
        message: M,
        now: Instant,
        rand: &mut SimRng<S>,
    ) -> (out: Vec<DeliverMessage<M>>)
        requires
            old(self)@.config.valid(),
        ensures
            final(rand).continues(old(rand).drawn()),
            link_send(
                old(self)@,
                message,
                now,
                final(rand).drawn_since(old(rand).drawn()),
                final(self)@,
                out@,
            ),
    {
        let ghost before = rand.drawn();
        let mut released_messages = self.check_state_transition(now, rand);
        let ghost caught_up = rand.drawn();
        let ghost count = link_transition_draw_count(old(self)@.state, now, old(self)@.config);
        match &mut self.state {
            LinkState::Up { .. } => {
                let ghost released = released_messages@;
                if rand.gen_bool(self.config.duplicate_probability) {
                    released_messages.push(message.clone());
                }
                released_messages.push(message);
                let ghost flipped = rand.drawn();
                let ghost batch = released_messages@;
                let ghost mut latencies: Seq<Draw> = Seq::empty();
                let mut out: Vec<DeliverMessage<M>> = Vec::new();
                for m in it: released_messages
                    invariant
                        it.seq() == batch,
                        self@.config.valid(),
                        out@.len() == it.index(),
                        rand.drawn() == flipped + latencies,
                        latencies.len() == out@.len(),
                        forall|i: int|
                            0 <= i < out@.len() ==> (#[trigger] out@[i]).message == batch[i],
                        forall|i: int|
                            0 <= i < latencies.len() ==> {
                                &&& (#[trigger] latencies[i]) is Span
                                &&& latencies[i]->mean == self@.config.spec_latency_mean()
                                &&& out@[i].delay == self@.config.spec_delay(latencies[i]->span)
                            },
                {
                    let delay = self.calculate_delay(rand);
                    out.push(DeliverMessage { message: m, delay });
                    proof {
                        latencies = latencies.push(rand.drawn().last());
                        assert(rand.drawn() =~= flipped + latencies);
                    }
                }
                proof {
                    let draws = rand.drawn_since(before);
                    let rest = draws.skip(count as int);
                    assert(caught_up.len() == before.len() + count);
                    assert(flipped == caught_up.push(flipped.last()));
                    assert(draws =~= caught_up.skip(before.len() as int).push(flipped.last())
                        + latencies);
                    assert(draws.take(count as int) =~= caught_up.skip(before.len() as int));
                    assert(rest =~= seq![flipped.last()] + latencies);
                    assert forall|i: int| 0 <= i < out@.len() implies {
                        &&& rest[1 + i] is Span
                        &&& rest[1 + i]->mean == self@.config.spec_latency_mean()
                        &&& (#[trigger] out@[i]).delay == self@.config.spec_delay(
                            rest[1 + i]->span,
                        )
                    } by {
                        assert(rest[1 + i] == latencies[i]);
                    }
                    assert forall|i: int| 0 <= i < draws.len() implies (
                    #[trigger] draws[i]).possible() by {
                        if i < count {
                            assert(draws[i] == caught_up.skip(before.len() as int)[i]);
                        } else if i == count {
                            assert(draws[i] == flipped.last());
                        } else {
                            assert(draws[i] == latencies[i - count - 1]);
                        }
                    }
                }
                out
            },
            LinkState::TempHold { queued_messages, .. } => {
                queued_messages.push(message);
                proof {
                    let draws = rand.drawn_since(before);
                    assert(draws.take(count as int) =~= draws);
                }
                Vec::new()
            },
            _ => {
                proof {
                    let draws = rand.drawn_since(before);
                    assert(draws.take(count as int) =~= draws);
                }
                Vec::new()
            },
        }
    }
}

/// Every delay that a link hands out lies within the latency range of its
/// configuration.
pub proof fn lemma_link_delays_are_possible<M: Clone>(
    pre: LinkView<M>,
    message: M,
    now: Instant,
    draws: Seq<Draw>,
    post: LinkView<M>,
    out: Seq<DeliverMessage<M>>,
)
    requires
        pre.config.valid(),
        link_send(pre, message, now, draws, post, out),
    ensures
        forall|i: int| 0 <= i < out.len() ==> pre.config.possible_delay((#[trigger] out[i]).delay),
{
    let count = link_transition_draw_count(pre.state, now, pre.config) as int;
    assert forall|i: int| 0 <= i < out.len() implies pre.config.possible_delay(
        (#[trigger] out[i]).delay,
    ) by {
        let span = draws.skip(count)[1 + i]->span;
        assert(out[i].delay == pre.config.spec_delay(span));
    }
}

/// What a link does with a message is settled by the draws: two sends that
/// start from the same link, with the same message, at the same instant and
/// by the same draws leave the same link behind and hand out the same
/// deliveries, each with the same delay. Only the duplicate of a message,
/// which is whatever its clone gives, is not settled.
pub proof fn lemma_link_send_is_determined<M: Clone>(
    pre: LinkView<M>,
    message: M,
    now: Instant,
    draws: Seq<Draw>,
    one: (LinkView<M>, Seq<DeliverMessage<M>>),
    other: (LinkView<M>, Seq<DeliverMessage<M>>),
)
    requires
        link_send(pre, message, now, draws, one.0, one.1),
        link_send(pre, message, now, draws, other.0, other.1),
    ensures
        one.0 == other.0,
        one.1.len() == other.1.len(),
        forall|i: int| 0 <= i < one.1.len() ==> (#[trigger] one.1[i]).delay == other.1[i].delay,
        forall|i: int|
            0 <= i < one.1.len() ==> (#[trigger] one.1[i]).message == other.1[i].message || (cloned(
                message,
                one.1[i].message,
            ) && cloned(message, other.1[i].message)),
{
    let count = link_transition_draw_count(pre.state, now, pre.config) as int;
    let caught_up = link_after_transition(pre.state, now, pre.config, draws.take(count));
    if caught_up is Up {
        let released = pre.state.released(now);
        let n = released.len() as int;
        assert forall|i: int| 0 <= i < one.1.len() implies (#[trigger] one.1[i]).delay
            == other.1[i].delay by {
            assert(other.1[i].delay == pre.config.spec_delay(draws.skip(count)[1 + i]->span));
        }
        assert forall|i: int| 0 <= i < one.1.len() implies (#[trigger] one.1[i]).message
            == other.1[i].message || (cloned(message, one.1[i].message) && cloned(
            message,
            other.1[i].message,
        )) by {
            if i < n {
                assert(other.1[i].message == released[i]);
            }
        }
    }
}

/// Whether a link that holds in `first` takes `messages` one after the
/// other, each at its instant of `times` and none of them at or after the
/// recovery, and is `links[i]` after message `i`.
pub open spec fn held_sends<M: Clone>(
    first: LinkView<M>,
    messages: Seq<M>,
    times: Seq<Instant>,
    links: Seq<LinkView<M>>,
) -> bool {
    &&& first.state is TempHold
    &&& times.len() == messages.len()
    &&& links.len() == messages.len()
    &&& forall|i: int|
        0 <= i < times.len() ==> (#[trigger] times[i]).nanos
            < first.state->TempHold_expected_recovery.nanos
    &&& forall|i: int|
        0 <= i < messages.len() ==> link_send(
            if i == 0 {
                first
            } else {
                links[i - 1]
            },
            #[trigger] messages[i],
            times[i],
            Seq::empty(),
            links[i],
            Seq::empty(),
        )
}

/// A link that holds and is not yet due for recovery takes a message to the
/// end of its queue and hands nothing out.
pub proof fn lemma_hold_takes_message<M: Clone>(
    pre: LinkView<M>,
    message: M,
    now: Instant,
    post: LinkView<M>,
    out: Seq<DeliverMessage<M>>,
)
    requires
        pre.state is TempHold,
        now.nanos < pre.state->TempHold_expected_recovery.nanos,
        link_send(pre, message, now, Seq::empty(), post, out),
    ensures
        out.len() == 0,
        post.state == (LinkStateView::TempHold {
            expected_recovery: pre.state->TempHold_expected_recovery,
            queued_messages: pre.state.held().push(message),
        }),
{
}

/// A hold keeps what it takes, in the order in which it took it: after
/// `messages` have gone into a link that holds, its queue is the queue from
/// before with `messages` behind it.
pub proof fn lemma_hold_queues_in_order<M: Clone>(
    first: LinkView<M>,
    messages: Seq<M>,
    times: Seq<Instant>,
    links: Seq<LinkView<M>>,
)
    requires
        held_sends(first, messages, times, links),
    ensures
        messages.len() > 0 ==> links.last().state == (LinkStateView::TempHold {
            expected_recovery: first.state->TempHold_expected_recovery,
            queued_messages: first.state.held() + messages,
        }),
    decreases messages.len(),
{
    let recovery = first.state->TempHold_expected_recovery;
    if messages.len() == 1 {
        assert(links.last().state == (LinkStateView::TempHold {
            expected_recovery: recovery,
            queued_messages: first.state.held().push(messages[0]),
        })) by {
            assert(link_send(
                first,
                messages[0],
                times[0],
                Seq::empty(),
                links[0],
                Seq::empty(),
            ));
            lemma_hold_takes_message(first, messages[0], times[0], links[0], Seq::empty());
        }
        assert(first.state.held().push(messages[0]) =~= first.state.held() + messages);
    } else if messages.len() > 1 {
        let n = messages.len() - 1;
        let front = messages.take(n);
        let front_times = times.take(n);
        let front_links = links.take(n);
        assert(held_sends(first, front, front_times, front_links)) by {
            assert forall|i: int| 0 <= i < n implies link_send(
                if i == 0 {
                    first
                } else {
                    front_links[i - 1]
                },
                #[trigger] front[i],
                front_times[i],
                Seq::empty(),
                front_links[i],
                Seq::empty(),
            ) by {
                assert(front[i] == messages[i]);
                assert(front_times[i] == times[i]);
                assert(front_links[i] == links[i]);
                if i > 0 {
                    assert(front_links[i - 1] == links[i - 1]);
                }
            }
        }
        lemma_hold_queues_in_order(first, front, front_times, front_links);
        let before = links[n - 1];
        assert(before.state == (LinkStateView::TempHold {
            expected_recovery: recovery,
            queued_messages: first.state.held() + front,
        })) by {
            assert(front_links.last() == links[n - 1]);
        }
        assert(links[n].state == (LinkStateView::TempHold {
            expected_recovery: recovery,
            queued_messages: (first.state.held() + front).push(messages[n]),
        })) by {
            assert(times[n].nanos < recovery.nanos);
            assert(link_send(
                before,
                messages[n],
                times[n],
                Seq::empty(),
                links[n],
                Seq::empty(),
            ));
            lemma_hold_takes_message(before, messages[n], times[n], links[n], Seq::empty());
        }
        assert((first.state.held() + front).push(messages[n]) =~= first.state.held()
            + messages);
    }
}

/// Messages leave a hold in the order in which they entered it: when a
/// link that has taken `messages` into its hold recovers on the next send,
/// what it hands out starts with what it held before, then `messages` in
/// their order, and only then the message just sent.
pub proof fn lemma_hold_is_fifo<M: Clone>(
    first: LinkView<M>,
    messages: Seq<M>,
    times: Seq<Instant>,
    links: Seq<LinkView<M>>,
    message: M,
    now: Instant,
    draws: Seq<Draw>,
    after: LinkView<M>,
    out: Seq<DeliverMessage<M>>,
)
    requires
        held_sends(first, messages, times, links),
        now.nanos >= first.state->TempHold_expected_recovery.nanos,
        link_send(
            if messages.len() == 0 {
                first
            } else {
                links.last()
            },
            message,
            now,
            draws,
            after,
            out,
        ),
    ensures
        after.state is Up,
        out.len() > first.state.held().len() + messages.len(),
        forall|i: int|
            0 <= i < first.state.held().len() ==> (#[trigger] out[i]).message
                == first.state.held()[i],
        forall|i: int|
            0 <= i < messages.len() ==> (#[trigger] out[first.state.held().len() + i]).message
                == messages[i],
        out.last().message == message,
{
    lemma_hold_queues_in_order(first, messages, times, links);
    let before = if messages.len() == 0 {
        first
    } else {
        links.last()
    };
    assert(before.state.held() =~= first.state.held() + messages);
    assert(before.state.pending(now) == LinkTransition::Recover);
    let count = link_transition_draw_count(before.state, now, before.config) as int;
    assert(link_delivers(out, before.state.held(), message, before.config, draws.skip(count)));
    assert forall|i: int| 0 <= i < messages.len() implies (#[trigger] out[first.state.held().len()
        + i]).message == messages[i] by {
        assert(before.state.held()[first.state.held().len() + i] == messages[i]);
    }
}

} // verus!
