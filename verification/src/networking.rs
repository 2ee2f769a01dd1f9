//! The simulated network: links between pairs of nodes, and the partition
//! that at times splits the nodes into two sides.

pub mod config;
pub mod link;
pub mod network;
pub mod partition;

pub use config::{ExponentialRate, NetworkConfig};
pub use link::{Link, LinkState, LinkStateView, LinkTransition, LinkView};
pub use network::{DeliverMessage, Network, NetworkView};
pub use partition::{
    NetworkPartition, NetworkPartitionView, PartitionState, PartitionStateView,
    PartitionTransition,
};
