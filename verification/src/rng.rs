//! The one random stream of a simulation.
//!
//! Every stochastic decision of the engine is drawn from a single
//! [`SimRng`], seeded once. Coins, ranges, shuffles and nonces come straight
//! from the generator; exponentially distributed spans come from the
//! [`ExponentialSampler`] that the caller supplies, which draws from the same
//! generator.
//!
//! What comes out of the stream cannot be foretold, but it can be written
//! down: the stream keeps a record of its draws, each with what was asked
//! and what came back. The contracts of the engine say which draws a call
//! makes, in which order, and what it does with their outcomes.

use vstd::prelude::*;
use rand::Rng;
use rand::RngCore;
use rand::SeedableRng;
use rand::seq::SliceRandom;
use itertools::Itertools;
use crate::time::Duration;

verus! {

/// `ChaCha8Rng` of `rand_chacha`, the generator behind the stream. The
/// library hands it on and never looks inside.
#[verifier::external_type_specification]
#[verifier::external_body]
pub struct ExChaCha8Rng(rand_chacha::ChaCha8Rng);

/// The chance of an event, as the ratio `numerator / denominator`.
#[derive(Clone, Copy, Debug, PartialEq, Eq, Structural)]
pub struct Probability {
    pub numerator: u32,
    pub denominator: u32,
}

impl Probability {
    /// A ratio is a probability when it lies between zero and one.
    pub open spec fn valid(self) -> bool {
        0 < self.denominator && self.numerator <= self.denominator
    }

    /// The probability `numerator / denominator`, or nothing when the ratio
    /// is not between zero and one.
    pub fn new(numerator: u32, denominator: u32) -> (p: Option<Probability>)
        ensures
            p == if 0 < denominator && numerator <= denominator {
                Some(Probability { numerator, denominator })
            } else {
                None
            },
    {
        if 0 < denominator && numerator <= denominator {
            Some(Probability { numerator, denominator })
        } else {
            None
        }
    }

    /// The event that never happens.
    pub fn never() -> (p: Probability)
        ensures
            p == (Probability { numerator: 0, denominator: 1 }),
    {
        Probability { numerator: 0, denominator: 1 }
    }

    /// The event that always happens.
    pub fn always() -> (p: Probability)
        ensures
            p == (Probability { numerator: 1, denominator: 1 }),
    {
        Probability { numerator: 1, denominator: 1 }
    }

    pub fn is_valid(&self) -> (ok: bool)
        ensures
            ok == self.valid(),
    {
        0 < self.denominator && self.numerator <= self.denominator
    }
}

/// A source of exponentially distributed spans.
///
/// The engine asks for one span at a time and hands over its generator, so
/// that the draw takes its place in the one random stream. Nothing is
/// assumed of the answer: the engine is correct for every span that comes
/// back.
pub trait ExponentialSampler {
    /// Draws a span from the exponential distribution with mean `mean`,
    /// taking all randomness from `rng`.
    fn sample(&mut self, mean: Duration, rng: &mut rand_chacha::ChaCha8Rng) -> Duration;
}

/// One entry in the record of the stream: the seeding, or a draw with what
/// was asked and what came back.
pub enum Draw {
    /// The generator was made from the seed `seed`.
    Seed { seed: u64 },
    /// 64 bits were drawn.
    Bits { bits: u64 },
    /// A coin that shows heads with the probability `chance` was flipped.
    Coin { chance: Probability, heads: bool },
    /// A number of the range `low..=high` was drawn.
    Number { low: usize, high: usize, number: usize },
    /// The items `before` were shuffled into `after`.
    Shuffle { before: Seq<usize>, after: Seq<usize> },
    /// The sampler was asked for a span with the mean `mean`.
    Span { mean: Duration, span: Duration },
}

impl Draw {
    /// Whether the entry is a draw with an outcome that the generator can
    /// give for what was asked: a coin that always shows heads has shown
    /// heads and one that never does has not, a number lies in its range,
    /// and a shuffle has kept the items. The seeding is no draw.
    pub open spec fn possible(self) -> bool {
        match self {
            Draw::Seed { .. } => false,
            Draw::Bits { .. } => true,
            Draw::Coin { chance, heads } => {
                &&& chance.numerator == 0 ==> !heads
                &&& chance.numerator == chance.denominator ==> heads
            },
            Draw::Number { low, high, number } => low <= number <= high,
            Draw::Shuffle { before, after } => after.to_multiset() == before.to_multiset(),
            Draw::Span { .. } => true,
        }
    }
}

/// The random stream of one simulation: a seeded generator together with the
/// sampler for exponential spans.
pub struct SimRng<S: ExponentialSampler> {
    rng: rand_chacha::ChaCha8Rng,
    sampler: S,
    /// The draws made so far, in their order.
    drawn: Ghost<Seq<Draw>>,
}

/// The generator that `SeedableRng::seed_from_u64` of `rand_core` makes
/// from `seed`, for `ChaCha8Rng`. It is settled by the seed alone.
pub uninterp spec fn seeded_stream(seed: u64) -> rand_chacha::ChaCha8Rng;

/// `SeedableRng::seed_from_u64` of `rand_core`, for `ChaCha8Rng`: the
/// generator that the seed determines. Nothing is claimed of its state.
#[verifier::external_body]
fn seeded_generator(seed: u64) -> (generator: rand_chacha::ChaCha8Rng)
    ensures
        generator == seeded_stream(seed),
{
    rand_chacha::ChaCha8Rng::seed_from_u64(seed)
}

/// `RngCore::next_u64` of `rand_core`: the next 64 bits of the stream. Any
/// value may come back.
#[verifier::external_body]
fn next_word(rng: &mut rand_chacha::ChaCha8Rng) -> u64 {
    rng.next_u64()
}

/// `Rng::gen_ratio` of `rand`: a coin that shows `true` with the chance
/// `numerator / denominator`. It panics on a ratio outside zero to one, which
/// the precondition rules out. Its documentation guarantees `false` for a
/// numerator of zero and `true` for a numerator equal to the denominator.
#[verifier::external_body]
fn coin(rng: &mut rand_chacha::ChaCha8Rng, numerator: u32, denominator: u32) -> (heads: bool)
    requires
        0 < denominator,
        numerator <= denominator,
    ensures
        numerator == 0 ==> !heads,
        numerator == denominator ==> heads,
{
    rng.gen_ratio(numerator, denominator)
}

/// `Rng::gen_range` of `rand` on the inclusive range `low..=high`: a value of
/// that range. It panics on an empty range, which the precondition rules out.
#[verifier::external_body]
fn uniform_inclusive(rng: &mut rand_chacha::ChaCha8Rng, low: usize, high: usize) -> (n: usize)
    requires
        low <= high,
    ensures
        low <= n <= high,
{
    rng.gen_range(low..=high)
}

/// `SliceRandom::shuffle` of `rand`: reorders the items in place. The items
/// are the same afterwards, each as often as before.
#[verifier::external_body]
fn shuffle_in_place(items: &mut Vec<usize>, rng: &mut rand_chacha::ChaCha8Rng)
    ensures
        final(items)@.to_multiset() == old(items)@.to_multiset(),
{
    items.shuffle(rng)
}

/// `Itertools::collect_vec` of `itertools`, on the range `0..n`: the indices
/// below `n` in increasing order.
#[verifier::external_body]
pub(crate) fn indices_below(n: usize) -> (indices: Vec<usize>)
    ensures
        indices@.len() == n,
        forall|i: int| 0 <= i < n ==> indices@[i] == i,
{
    (0..n).collect_vec()
}

impl<S: ExponentialSampler> SimRng<S> {
    /// The sampler for exponential spans.
    pub closed spec fn sampler(&self) -> S {
        self.sampler
    }

    /// The generator behind the stream.
    pub closed spec fn generator(&self) -> rand_chacha::ChaCha8Rng {
        self.rng
    }

    /// The draws made so far, in their order.
    pub closed spec fn drawn(&self) -> Seq<Draw> {
        self.drawn@
    }

    /// The draws made since the stream had made the draws `before`.
    pub open spec fn drawn_since(&self, before: Seq<Draw>) -> Seq<Draw> {
        self.drawn().skip(before.len() as int)
    }

    /// Whether the stream has gone on from where it had made the draws
    /// `before`, by draws with possible outcomes.
    pub open spec fn continues(&self, before: Seq<Draw>) -> bool {
        &&& before.is_prefix_of(self.drawn())
        &&& forall|i: int|
            0 <= i < self.drawn_since(before).len() ==> (#[trigger] self.drawn_since(
                before,
            )[i]).possible()
    }

    /// The stream that `seed` determines, with `sampler` for exponential
    /// spans. Its record starts with the seed.
    pub fn new(seed: u64, sampler: S) -> (rng: SimRng<S>)
        ensures
            rng.sampler() == sampler,
            rng.generator() == seeded_stream(seed),
            rng.drawn() == Seq::<Draw>::empty().push(Draw::Seed { seed }),
    {
        SimRng {
            rng: seeded_generator(seed),
            sampler,
            drawn: Ghost(Seq::empty().push(Draw::Seed { seed })),
        }
    }

    /// The next 64 bits of the stream.
    pub(crate) fn next_u64(&mut self) -> (bits: u64)
        ensures
            final(self).drawn() == old(self).drawn().push(Draw::Bits { bits }),
            final(self).sampler() == old(self).sampler(),
    {
        let bits = next_word(&mut self.rng);
        self.drawn = Ghost(self.drawn@.push(Draw::Bits { bits }));
        bits
    }

    /// Flips a coin that shows `true` with probability `p`.
    pub(crate) fn gen_bool(&mut self, p: Probability) -> (heads: bool)
        requires
            p.valid(),
        ensures
            final(self).drawn() == old(self).drawn().push(Draw::Coin { chance: p, heads }),
            final(self).sampler() == old(self).sampler(),
            p.numerator == 0 ==> !heads,
            p.numerator == p.denominator ==> heads,
    {
        let heads = coin(&mut self.rng, p.numerator, p.denominator);
        self.drawn = Ghost(self.drawn@.push(Draw::Coin { chance: p, heads }));
        heads
    }

    /// Draws a number from `low..=high`.
    pub(crate) fn gen_range(&mut self, low: usize, high: usize) -> (number: usize)
        requires
            low <= high,
        ensures
            final(self).drawn() == old(self).drawn().push(Draw::Number { low, high, number }),
            final(self).sampler() == old(self).sampler(),
            low <= number <= high,
    {
        let number = uniform_inclusive(&mut self.rng, low, high);
        self.drawn = Ghost(self.drawn@.push(Draw::Number { low, high, number }));
        number
    }

    /// Puts `items` into a random order.
    pub(crate) fn shuffle(&mut self, items: &mut Vec<usize>)
        ensures
            final(self).drawn() == old(self).drawn().push(
                Draw::Shuffle { before: old(items)@, after: final(items)@ },
            ),
            final(self).sampler() == old(self).sampler(),
            final(items)@.to_multiset() == old(items)@.to_multiset(),
    {
        let ghost before = items@;
        shuffle_in_place(items, &mut self.rng);
        self.drawn = Ghost(self.drawn@.push(Draw::Shuffle { before, after: items@ }));
    }

    /// Draws an exponentially distributed span with mean `mean` from the
    /// sampler, which is handed the generator. Any span may come back.
    pub(crate) fn sample_exponential(&mut self, mean: Duration) -> (span: Duration)
        ensures
            final(self).drawn() == old(self).drawn().push(Draw::Span { mean, span }),
            exists|sampler: &mut S, generator: &mut rand_chacha::ChaCha8Rng|
                {
                    &&& *sampler == old(self).sampler()
                    &&& *final(sampler) == final(self).sampler()
                    &&& *generator == old(self).generator()
                    &&& #[trigger] call_ensures(S::sample, (sampler, mean, generator), span)
                },
    {
        let span = self.sampler.sample(mean, &mut self.rng);
        self.drawn = Ghost(self.drawn@.push(Draw::Span { mean, span }));
        span
    }
}

} // verus!
