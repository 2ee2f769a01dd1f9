//! What the network can be told: latencies, duplication, link failures and
//! partitions.

use vstd::prelude::*;
use crate::rng::Probability;
use crate::time::Duration;

verus! {

/// The rate of an exponential distribution, as the ratio
/// `numerator / denominator`. Its mean is the inverse of the rate.
#[derive(Clone, Copy, Debug, PartialEq, Eq, Structural)]
pub struct ExponentialRate {
    pub numerator: u32,
    pub denominator: u32,
}

impl ExponentialRate {
    /// A rate is positive.
    pub open spec fn valid(self) -> bool {
        0 < self.numerator && 0 < self.denominator
    }

    pub fn is_valid(&self) -> (ok: bool)
        ensures
            ok == self.valid(),
    {
        0 < self.numerator && 0 < self.denominator
    }
}

#[derive(Clone, Copy, Debug)]
pub struct NetworkConfig {
    // Latency configuration
    pub min_message_latency: Duration,
    pub max_message_latency: Duration,
    /// The distribution of the share of the latency range that a message
    /// takes on top of the minimum latency.
    pub latency_distribution: ExponentialRate,
    // Duplicate configuration
    pub duplicate_probability: Probability,
    // Failure configuration
    pub hold_probability: Probability,
    pub mean_time_between_link_failures: Option<Duration>,
    pub mean_link_recovery_time: Duration,
    // Partition configuration
    pub mean_time_between_partitions: Option<Duration>,
    pub mean_partition_recovery_time: Duration,
}

/// The network as it is unless told otherwise: latencies up to 100 ms with a
/// mean of a fifth of that, one message in ten duplicated, a link failure
/// about every second that lasts about 300 ms and holds messages three times
/// in ten, and a partition about every four seconds that lasts about one.
pub open spec fn spec_default_network_config() -> NetworkConfig {
    NetworkConfig {
        min_message_latency: Duration { nanos: 0 },
        max_message_latency: Duration { nanos: 100_000_000 },
        latency_distribution: ExponentialRate { numerator: 5, denominator: 1 },
        duplicate_probability: Probability { numerator: 1, denominator: 10 },
        hold_probability: Probability { numerator: 3, denominator: 10 },
        mean_time_between_link_failures: Some(Duration { nanos: 1_000_000_000 }),
        mean_link_recovery_time: Duration { nanos: 300_000_000 },
        mean_time_between_partitions: Some(Duration { nanos: 4_000_000_000 }),
        mean_partition_recovery_time: Duration { nanos: 1_000_000_000 },
    }
}

impl Default for NetworkConfig {
    fn default() -> (config: NetworkConfig)
        ensures
            config == spec_default_network_config(),
            config.valid(),
    {
        NetworkConfig {
            min_message_latency: Duration::from_millis(0),
            max_message_latency: Duration::from_millis(100),
            latency_distribution: ExponentialRate { numerator: 5, denominator: 1 },
            duplicate_probability: Probability { numerator: 1, denominator: 10 },
            mean_time_between_link_failures: Some(Duration::from_millis(1000)),
            mean_link_recovery_time: Duration::from_millis(300),
            hold_probability: Probability { numerator: 3, denominator: 10 },
            mean_time_between_partitions: Some(Duration::from_millis(4000)),
            mean_partition_recovery_time: Duration::from_millis(1000),
        }
    }
}

impl NetworkConfig {
    /// A configuration is usable when the latency range is not empty, the
    /// probabilities and the rate make sense, and no mean is zero.
    pub open spec fn valid(self) -> bool {
        &&& self.min_message_latency.nanos <= self.max_message_latency.nanos
        &&& self.latency_distribution.valid()
        &&& self.duplicate_probability.valid()
        &&& self.hold_probability.valid()
        &&& (self.mean_time_between_link_failures matches Some(mean) ==> mean.nanos > 0)
        &&& self.mean_link_recovery_time.nanos > 0
        &&& (self.mean_time_between_partitions matches Some(mean) ==> mean.nanos > 0)
        &&& self.mean_partition_recovery_time.nanos > 0
    }

    pub fn is_valid(&self) -> (ok: bool)
        ensures
            ok == self.valid(),
    {
        let link_mean_ok = match self.mean_time_between_link_failures {
            Some(mean) => mean.nanos > 0,
            None => true,
        };
        let partition_mean_ok = match self.mean_time_between_partitions {
            Some(mean) => mean.nanos > 0,
            None => true,
        };
        self.min_message_latency.nanos <= self.max_message_latency.nanos
            && self.latency_distribution.is_valid() && self.duplicate_probability.is_valid()
            && self.hold_probability.is_valid() && link_mean_ok
            && self.mean_link_recovery_time.nanos > 0 && partition_mean_ok
            && self.mean_partition_recovery_time.nanos > 0
    }

    /// The width of the latency range.
    pub open spec fn spec_latency_range(self) -> int {
        self.max_message_latency.nanos - self.min_message_latency.nanos
    }

    /// The mean of the span that a message takes on top of the minimum
    /// latency: the latency range divided by the rate, held at the largest
    /// span.
    pub open spec fn spec_latency_mean(self) -> Duration {
        let mean = self.spec_latency_range() * self.latency_distribution.denominator
            / (self.latency_distribution.numerator as int);
        Duration { nanos: if mean <= u64::MAX { mean as u64 } else { u64::MAX } }
    }

    /// Computes the mean of the span that a message takes on top of the
    /// minimum latency.
    pub fn latency_mean(&self) -> (mean: Duration)
        requires
            self.valid(),
        ensures
            mean == self.spec_latency_mean(),
    {
        let range: u128 = (self.max_message_latency.nanos - self.min_message_latency.nanos) as u128;
        let denominator: u128 = self.latency_distribution.denominator as u128;
        let numerator: u128 = self.latency_distribution.numerator as u128;
        assert(range * denominator <= 0xffff_ffff_ffff_ffff * 0xffff_ffff) by (nonlinear_arith)
            requires
                range <= 0xffff_ffff_ffff_ffff,
                denominator <= 0xffff_ffff,
        ;
        let mean: u128 = range * denominator / numerator;
        if mean <= u64::MAX as u128 {
            Duration { nanos: mean as u64 }
        } else {
            Duration { nanos: u64::MAX }
        }
    }

    /// The delay of a message for which `sample` was drawn: the minimum
    /// latency plus the sample, and no more than the maximum latency.
    pub open spec fn spec_delay(self, sample: Duration) -> Duration {
        if self.min_message_latency.nanos + sample.nanos <= self.max_message_latency.nanos {
            Duration { nanos: (self.min_message_latency.nanos + sample.nanos) as u64 }
        } else {
            self.max_message_latency
        }
    }

    /// Whether `delay` is the delay of a message for some span that may be
    /// drawn. Such a delay lies within the latency range.
    pub open spec fn possible_delay(self, delay: Duration) -> bool {
        &&& exists|sample: Duration| delay == #[trigger] self.spec_delay(sample)
        &&& self.min_message_latency.nanos <= delay.nanos <= self.max_message_latency.nanos
    }

    /// Computes the delay of a message from the span drawn for it.
    pub fn delay_from_sample(&self, sample: Duration) -> (delay: Duration)
        requires
            self.valid(),
        ensures
            delay == self.spec_delay(sample),
            self.possible_delay(delay),
    {
        let range: u64 = self.max_message_latency.nanos - self.min_message_latency.nanos;
        let delay = if sample.nanos <= range {
            Duration { nanos: self.min_message_latency.nanos + sample.nanos }
        } else {
            self.max_message_latency
        };
        assert(delay == self.spec_delay(sample));
        delay
    }
}

/// Every delay lies within the configured latency range, whatever was drawn.
pub proof fn lemma_delay_within_bounds(config: NetworkConfig, sample: Duration)
    requires
        config.valid(),
    ensures
        config.min_message_latency.nanos <= config.spec_delay(sample).nanos,
        config.spec_delay(sample).nanos <= config.max_message_latency.nanos,
{
}

} // verus!
