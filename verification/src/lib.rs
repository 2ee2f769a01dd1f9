//! A deterministic discrete-event simulator for distributed protocols.
//!
//! Server and client nodes are driven through virtual time over a network
//! that delays, duplicates, holds and drops messages, partitions itself and
//! lets servers crash, all from one seeded random stream.
//!
//! - [`simulator`] holds the engine: the event loop over the queue of
//!   [`queue`].
//! - [`networking`] holds the network with its links and its partition.
//! - [`node`] wraps a server with its crashes.
//! - [`model`] says what a protocol has to bring.
//! - [`rng`] is the random stream, [`time`] the virtual clock.

pub mod config;
pub mod model;
pub mod networking;
pub mod node;
pub mod node_id;
pub mod queue;
pub mod rng;
pub mod simulator;
pub mod time;
pub mod util;

pub use config::{Configuration, FailureConfiguration};
pub use model::{DeterministicClient, DeterministicNode, InvariantChecker, ProtocolMessage};
pub use networking::{
    DeliverMessage, ExponentialRate, Link, LinkState, Network, NetworkConfig, NetworkPartition,
    PartitionState,
};
pub use node::{Node, NodeState};
pub use node_id::NodeId;
pub use queue::{EventQueue, EventTime};
pub use rng::{Draw, ExponentialSampler, Probability, SimRng};
pub use simulator::{Event, SetupError, SimulationMessage, Simulator};
pub use time::{Duration, Instant};
