//! The source of random numbers that the search draws from.

use rand::rngs::StdRng;
use rand::seq::SliceRandom;
use rand::{RngCore, SeedableRng};
use vstd::prelude::*;

verus! {

/// `rand::rngs::StdRng`, the generator behind `RandomSource`. It is carried
/// through as it is; nothing is known of what it holds.
#[verifier::external_type_specification]
#[verifier::external_body]
pub struct ExStdRng(rand::rngs::StdRng);

/// What is left of `drawn` when it is divided by `bound`: the number below
/// `bound` that a drawn number stands for.
pub open spec fn reduced(drawn: u64, bound: u64) -> u64 {
    (drawn % bound) as u64
}

/// A source that has gone on twice has gone on from where it first stood,
/// and what it handed out since is what it handed out on the way, in order.
pub proof fn lemma_continues_chain(first: RandomSource, second: RandomSource, third: RandomSource)
    requires
        second.continues(first),
        third.continues(second),
    ensures
        third.continues(first),
        third.drawn_since(first) == second.drawn_since(first) + third.drawn_since(second),
{
    let a = first.drawn().len() as int;
    let b = second.drawn().len() as int;
    assert(third.drawn().take(a) =~= third.drawn().take(b).take(a));
    assert(third.drawn_since(first) =~= second.drawn_since(first) + third.drawn_since(second));
}

/// A source has gone on from where it stands, and handed out nothing since.
pub proof fn lemma_continues_itself(source: RandomSource)
    ensures
        source.continues(source),
        source.drawn_since(source) == Seq::<u64>::empty(),
{
    assert(source.drawn().take(source.drawn().len() as int) =~= source.drawn());
    assert(source.drawn_since(source) =~= Seq::<u64>::empty());
}

/// A generator of random numbers that is started from a seed. It keeps the
/// seed, and its contracts keep the record of the numbers that it has handed
/// out.
pub struct RandomSource {
    generator: StdRng,
    seed: u64,
    drawn: Ghost<Seq<u64>>,
}

impl RandomSource {
    /// The seed that the source was started from.
    pub closed spec fn seed_view(&self) -> u64 {
        self.seed
    }

    /// The numbers that `next_u64` has handed out so far, the first one first.
    pub closed spec fn drawn(&self) -> Seq<u64> {
        self.drawn@
    }

    /// The source has gone on from where `before` stood: same seed, and the
    /// record of `before` is the beginning of its record.
    pub open spec fn continues(&self, before: RandomSource) -> bool {
        &&& self.seed_view() == before.seed_view()
        &&& before.drawn().len() <= self.drawn().len()
        &&& self.drawn().take(before.drawn().len() as int) == before.drawn()
    }

    /// The numbers handed out since the source stood as `before`.
    pub open spec fn drawn_since(&self, before: RandomSource) -> Seq<u64> {
        self.drawn().skip(before.drawn().len() as int)
    }

    /// A source started from `seed`, which has handed out nothing yet.
    pub fn seeded(seed: u64) -> (source: RandomSource)
        ensures
            source.seed_view() == seed,
            source.drawn() == Seq::<u64>::empty(),
    {
        RandomSource { generator: generator_from_seed(seed), seed, drawn: Ghost(Seq::empty()) }
    }

    pub fn seed(&self) -> (seed: u64)
        ensures
            seed == self.seed_view(),
    {
        self.seed
    }

    /// The next number of the generator. Nothing is known of it beforehand;
    /// it is the newest entry of the record afterwards.
    pub fn next_u64(&mut self) -> (number: u64)
        ensures
            final(self).drawn() == old(self).drawn().push(number),
            final(self).seed_view() == old(self).seed_view(),
    {
        let number = next_number(&mut self.generator);
        self.drawn = Ghost(self.drawn@.push(number));
        number
    }

    /// A number below `bound`: the next number of the generator, reduced.
    pub fn below(&mut self, bound: u64) -> (number: u64)
        requires
            bound > 0,
        ensures
            final(self).continues(*old(self)),
            final(self).drawn_since(*old(self)).len() == 1,
            number == reduced(final(self).drawn_since(*old(self))[0], bound),
            number < bound,
    {
        let drawn = self.next_u64();
        proof {
            assert(self.drawn().take(old(self).drawn().len() as int) =~= old(self).drawn());
            assert(self.drawn_since(*old(self)) =~= seq![drawn]);
        }
        drawn % bound
    }

    /// Puts `symbols` into a random order. The generator is asked by the
    /// shuffle itself, so the record of numbers handed out stays as it is.
    pub fn shuffle(&mut self, symbols: &mut Vec<u8>)
        ensures
            final(symbols)@.to_multiset() == old(symbols)@.to_multiset(),
            final(self).drawn() == old(self).drawn(),
            final(self).seed_view() == old(self).seed_view(),
    {
        shuffle_symbols(symbols, &mut self.generator);
    }
}

/// Calls `SeedableRng::seed_from_u64` of `StdRng`. Nothing is claimed of the generator.
#[verifier::external_body]
fn generator_from_seed(seed: u64) -> StdRng {
    StdRng::seed_from_u64(seed)
}

/// Calls `RngCore::next_u64` of `StdRng`. Nothing is claimed of the number.
#[verifier::external_body]
fn next_number(generator: &mut StdRng) -> u64 {
    generator.next_u64()
}

/// Calls `SliceRandom::shuffle` on the symbols. It exchanges items of the
/// slice pair by pair; trusted of it: the symbols afterwards are those from
/// before, each as often as before.
#[verifier::external_body]
fn shuffle_symbols(symbols: &mut Vec<u8>, generator: &mut StdRng)
    ensures
        final(symbols)@.to_multiset() == old(symbols)@.to_multiset(),
{
    symbols.shuffle(generator);
}

} // verus!
