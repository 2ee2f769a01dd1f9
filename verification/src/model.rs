//! What a protocol brings to the simulator: its messages, its servers, its
//! clients, and the check of its invariants.

use vstd::prelude::*;
use std::fmt::Debug;
use crate::node::Node;
use crate::node_id::NodeId;
use crate::time::Instant;

verus! {

pub trait ProtocolMessage: Clone + Debug + Eq + PartialEq {
    /// Returns the source of the message.
    fn source(&self) -> NodeId;

    /// Returns the destination of the message.
    fn destination(&self) -> NodeId;
}

pub trait DeterministicNode: Debug {
    type Message: ProtocolMessage;

    /// Returns the ID of the node.
    fn id(&self) -> NodeId;

    /// Performs periodic work and returns messages to be sent. Time is injected
    /// to allow for deterministic behavior.
    fn tick(&mut self, now: Instant) -> Vec<Self::Message>;

    /// Processes a message and returns messages to be sent. Time is injected to
    /// allow for deterministic behavior.
    fn process_message(&mut self, msg: Self::Message, now: Instant) -> Vec<Self::Message>;

    /// Initiates recovery of the node. Never called when the configuration
    /// has no mean time between failures, for then nodes do not fail.
    fn recover(&mut self, now: Instant, nonce: u64, replica_count: usize);

    /// Returns whether the node is currently recovering (the node is not yet
    /// ready to process messages).
    fn is_recovering(&self) -> bool;
}

pub trait DeterministicClient: Debug {
    type Message: ProtocolMessage;

    /// Returns the ID of the client.
    fn id(&self) -> NodeId;

    /// Performs periodic work and returns messages to be sent. Time is injected to
    /// allow for deterministic behavior.
    fn tick(&mut self, now: Instant) -> Vec<Self::Message>;

    /// Processes a message and returns messages to be sent. Time is injected to
    /// allow for deterministic behavior.
    fn process_message(&mut self, msg: Self::Message, now: Instant) -> Vec<Self::Message>;

    /// Returns whether the client has finished its work, e.g., all requests have
    /// been processed.
    fn finished(&self) -> bool;
}

pub trait InvariantChecker<N: DeterministicNode, C: DeterministicClient<Message = N::Message>> {
    /// Checks invariants of the system given the current state, e.g., an
    /// acknowledged message must be replicated to a majority of nodes in
    /// a consensus protocol. The invariants are checked periodically during
    /// simulation.
    fn check_invariants(&self, seed: u64, nodes: &[Node<N>], clients: &[C]);
}

/// Whether `id` is what the message gave as its source.
pub open spec fn reported_source<M: ProtocolMessage>(message: M, id: NodeId) -> bool {
    call_ensures(M::source, (&message,), id)
}

/// Whether `id` is what the message gave as its destination.
pub open spec fn reported_destination<M: ProtocolMessage>(message: M, id: NodeId) -> bool {
    call_ensures(M::destination, (&message,), id)
}

/// Whether `id` is what the server gave as its ID.
pub open spec fn reported_node_id<N: DeterministicNode>(node: N, id: NodeId) -> bool {
    call_ensures(N::id, (&node,), id)
}

/// Whether `id` is what the client gave as its ID.
pub open spec fn reported_client_id<C: DeterministicClient>(client: C, id: NodeId) -> bool {
    call_ensures(C::id, (&client,), id)
}

/// Whether the client said that it has finished.
pub open spec fn reported_finished<C: DeterministicClient>(client: C) -> bool {
    call_ensures(C::finished, (&client,), true)
}

/// Whether the client said that it has not finished.
pub open spec fn reported_unfinished<C: DeterministicClient>(client: C) -> bool {
    call_ensures(C::finished, (&client,), false)
}

} // verus!
