//! Sampling of failure and recovery instants.

use vstd::prelude::*;
use crate::rng::{Draw, ExponentialSampler, SimRng};
use crate::time::{spec_saturating_sum, Duration, Instant};

verus! {

/// The instant that lies `offset` after `start_time`, held at the last
/// instant of the clock.
pub open spec fn spec_failure_time(start_time: Instant, offset: Duration) -> Instant {
    Instant { nanos: spec_saturating_sum(start_time.nanos, offset.nanos) }
}

/// Turns a drawn span into the instant of the next failure or recovery.
pub fn failure_time_after(start_time: Instant, offset: Duration) -> (t: Instant)
    ensures
        t == spec_failure_time(start_time, offset),
{
    start_time.saturating_add(offset)
}

/// Draws the instant of the next failure or recovery: `start_time` plus an
/// exponentially distributed span with mean `mtf`.
///
/// The one draw is a span with the mean `mtf`. Whatever span comes back, the
/// instant is not before `start_time`.
pub fn sample_failure_time<S: ExponentialSampler>(
    start_time: Instant,
    mtf: Duration,
    rand: &mut SimRng<S>,
) -> (t: Instant)
    ensures
        exists|span: Duration|
            final(rand).drawn() == old(rand).drawn().push(Draw::Span { mean: mtf, span }) && t
                == #[trigger] spec_failure_time(start_time, span),
        t.nanos >= start_time.nanos,
{
    let offset = rand.sample_exponential(mtf);
    failure_time_after(start_time, offset)
}

} // verus!
