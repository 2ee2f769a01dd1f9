//! What a simulation can be told.

use vstd::prelude::*;
use crate::networking::config::{spec_default_network_config, NetworkConfig};
use crate::time::{Duration, Instant};

verus! {

#[derive(Debug, Clone, Copy)]
pub struct Configuration {
    pub tick_interval: Duration,
    pub max_sim_time: Duration,
    pub seed: u64,
    pub check_invariants_frequency: usize,
    pub network_config: NetworkConfig,
    pub failure_config: FailureConfiguration,
}

#[derive(Debug, Clone, Copy)]
pub struct FailureConfiguration {
    pub mean_time_between_failures: Option<Duration>,
    /// Reserved. The time that a crashed node stays down is drawn with the
    /// mean time between failures.
    pub mean_time_to_recover: Duration,
}

/// Crashes as they are unless told otherwise: about every three seconds.
pub open spec fn spec_default_failure_config() -> FailureConfiguration {
    FailureConfiguration {
        mean_time_between_failures: Some(Duration { nanos: 3_000_000_000 }),
        mean_time_to_recover: Duration { nanos: 2_000_000_000 },
    }
}

/// The simulation as it is unless told otherwise: a tick every 50 ms, ten
/// seconds of virtual time, seed 1, invariants checked after every event.
pub open spec fn spec_default_configuration() -> Configuration {
    Configuration {
        tick_interval: Duration { nanos: 50_000_000 },
        max_sim_time: Duration { nanos: 10_000_000_000 },
        seed: 1,
        check_invariants_frequency: 1,
        network_config: spec_default_network_config(),
        failure_config: spec_default_failure_config(),
    }
}

impl Default for FailureConfiguration {
    fn default() -> (config: FailureConfiguration)
        ensures
            config == spec_default_failure_config(),
            config.valid(),
    {
        FailureConfiguration {
            mean_time_between_failures: Some(Duration::from_millis(3000)),
            mean_time_to_recover: Duration::from_millis(2000),
        }
    }
}

impl Default for Configuration {
    fn default() -> (config: Configuration)
        ensures
            config == spec_default_configuration(),
            config.valid(),
    {
        Configuration {
            tick_interval: Duration::from_millis(50),
            max_sim_time: Duration::from_secs(10),
            seed: 1,
            check_invariants_frequency: 1,
            network_config: NetworkConfig::default(),
            failure_config: FailureConfiguration::default(),
        }
    }
}

impl FailureConfiguration {
    /// The mean time between failures is not zero.
    pub open spec fn valid(self) -> bool {
        self.mean_time_between_failures matches Some(mean) ==> mean.nanos > 0
    }

    pub fn is_valid(&self) -> (ok: bool)
        ensures
            ok == self.valid(),
    {
        match self.mean_time_between_failures {
            Some(mean) => mean.nanos > 0,
            None => true,
        }
    }
}

impl Configuration {
    /// A configuration is usable when invariants are checked at some
    /// stride and the network and the crashes are configured usably.
    pub open spec fn valid(self) -> bool {
        &&& self.check_invariants_frequency > 0
        &&& self.network_config.valid()
        &&& self.failure_config.valid()
    }

    pub fn is_valid(&self) -> (ok: bool)
        ensures
            ok == self.valid(),
    {
        self.check_invariants_frequency > 0 && self.network_config.is_valid()
            && self.failure_config.is_valid()
    }

    /// The longest span from an event to one that it schedules: a tick
    /// interval or a message latency.
    pub open spec fn spec_longest_step(self) -> int {
        if self.tick_interval.nanos >= self.network_config.max_message_latency.nanos {
            self.tick_interval.nanos as int
        } else {
            self.network_config.max_message_latency.nanos as int
        }
    }

    /// Whether the clock can represent every instant of a simulation that
    /// starts at `start_time`: the end of the time budget, and one step more.
    pub open spec fn fits(self, start_time: Instant) -> bool {
        start_time.nanos + self.max_sim_time.nanos + self.spec_longest_step() <= u64::MAX
    }

    pub fn does_fit(&self, start_time: Instant) -> (ok: bool)
        ensures
            ok == self.fits(start_time),
    {
        let step: u64 = if self.tick_interval.nanos
            >= self.network_config.max_message_latency.nanos {
            self.tick_interval.nanos
        } else {
            self.network_config.max_message_latency.nanos
        };
        self.max_sim_time.nanos <= u64::MAX - start_time.nanos && step <= u64::MAX
            - start_time.nanos - self.max_sim_time.nanos
    }
}

} // verus!
