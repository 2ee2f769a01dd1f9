//! Identifiers of the participants of a simulation.

use vstd::prelude::*;

verus! {

/// Names a participant: the server or the client with the given index.
///
/// Servers and clients are numbered separately, each from zero and without
/// gaps. Identifiers are ordered by kind first, servers before clients, and
/// then by index.
#[derive(Clone, Copy, Debug, PartialEq, Eq, PartialOrd, Ord, Hash, Structural)]
pub enum NodeId {
    Node(usize),
    Client(usize),
}

impl NodeId {
    /// The index behind the tag.
    pub open spec fn index(self) -> usize {
        match self {
            NodeId::Node(i) => i,
            NodeId::Client(i) => i,
        }
    }

    /// The strict order on identifiers: every server precedes every client,
    /// and within one kind the smaller index comes first.
    pub open spec fn spec_precedes(self, other: NodeId) -> bool {
        match (self, other) {
            (NodeId::Node(a), NodeId::Node(b)) => a < b,
            (NodeId::Node(_), NodeId::Client(_)) => true,
            (NodeId::Client(_), NodeId::Node(_)) => false,
            (NodeId::Client(a), NodeId::Client(b)) => a < b,
        }
    }

    /// Whether this identifier comes strictly before `other`.
    pub fn precedes(&self, other: &NodeId) -> (r: bool)
        ensures
            r == self.spec_precedes(*other),
    {
        match (*self, *other) {
            (NodeId::Node(a), NodeId::Node(b)) => a < b,
            (NodeId::Node(_), NodeId::Client(_)) => true,
            (NodeId::Client(_), NodeId::Node(_)) => false,
            (NodeId::Client(a), NodeId::Client(b)) => a < b,
        }
    }
}

/// The key under which the link between `a` and `b` is kept: the two
/// identifiers with the smaller one first, so that both directions share it.
pub open spec fn spec_link_key(a: NodeId, b: NodeId) -> (NodeId, NodeId) {
    if b.spec_precedes(a) {
        (b, a)
    } else {
        (a, b)
    }
}

/// Computes the key of the link between `from` and `to`.
pub fn link_key(from: NodeId, to: NodeId) -> (key: (NodeId, NodeId))
    ensures
        key == spec_link_key(from, to),
{
    if to.precedes(&from) {
        (to, from)
    } else {
        (from, to)
    }
}

/// Any two identifiers are equal or ordered one way, never both ways.
pub proof fn lemma_order_is_total(a: NodeId, b: NodeId)
    ensures
        a == b || a.spec_precedes(b) || b.spec_precedes(a),
        !(a.spec_precedes(b) && b.spec_precedes(a)),
        !a.spec_precedes(a),
{
}

/// The order on identifiers is transitive.
pub proof fn lemma_order_is_transitive(a: NodeId, b: NodeId, c: NodeId)
    requires
        a.spec_precedes(b),
        b.spec_precedes(c),
    ensures
        a.spec_precedes(c),
{
}

/// Both directions of a pair share one key, and the key holds the smaller
/// identifier first.
pub proof fn lemma_link_key_is_symmetric(a: NodeId, b: NodeId)
    ensures
        spec_link_key(a, b) == spec_link_key(b, a),
        !spec_link_key(a, b).1.spec_precedes(spec_link_key(a, b).0),
        spec_link_key(a, a) == (a, a),
{
    lemma_order_is_total(a, b);
}

} // verus!
