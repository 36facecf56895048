//! What a type must offer to be evolved.

use rand::rngs::StdRng;
use vstd::prelude::*;

verus! {

/// The largest mutation factor. The factor is counted in thousandths: 1000
/// stands for 1.
pub const MAX_FACTOR: u32 = 1000;

/// An agent of a genetic algorithm whose fitness is judged under parameters
/// of type `T`. Fitness is an integer; the larger, the fitter.
///
/// The contracts below are promises of whoever implements the trait. What
/// the algorithm proves of a population, it proves of agents that keep them.
/// The first four functions are the model that the promises speak of; the
/// algorithm never calls them, and an implementation outside verified code
/// writes them as ordinary functions.
pub trait Evolve<T>: Sized {
    /// What the agent needs to hold between calls.
    spec fn inv(&self) -> bool;

    /// The agent is in the state that [`Self::reset`] leaves it in.
    spec fn is_seeded(&self) -> bool;

    /// The fitness that the agent shows under `params` when it is judged
    /// right after a reset.
    spec fn seed_fitness(&self, params: &T) -> i64;

    /// The agent was bred from `parent` by mutation.
    spec fn descends_from(&self, parent: &Self) -> bool;

    /// A random agent.
    fn new_random(rng: &mut StdRng) -> (agent: Self)
        ensures
            agent.inv(),
    ;

    /// Puts the agent back into the state in which it is judged; what it
    /// inherits and passes on stays, and so does whom it descends from and
    /// who descends from it.
    fn reset(&mut self)
        requires
            old(self).inv(),
        ensures
            final(self).inv(),
            final(self).is_seeded(),
            forall|p: &T| #[trigger] final(self).seed_fitness(p) == old(self).seed_fitness(p),
            forall|o: &Self| #[trigger] final(self).descends_from(o) == old(self).descends_from(o),
            forall|o: &Self| #[trigger] o.descends_from(final(self)) == o.descends_from(old(self)),
    ;

    /// A mutated child of `other`, ready to be judged. `factor`, in
    /// thousandths, says how strongly to mutate.
    fn new_mutated(other: &Self, factor: u32, rng: &mut StdRng) -> (agent: Self)
        requires
            other.inv(),
            factor <= MAX_FACTOR,
        ensures
            agent.inv(),
            agent.is_seeded(),
            agent.descends_from(other),
    ;

    /// Judges the agent, which may change its state but not what it shows
    /// after a reset, nor whom it descends from and who descends from it.
    fn fitness(&mut self, params: &T) -> (fitness: i64)
        requires
            old(self).inv(),
        ensures
            final(self).inv(),
            old(self).is_seeded() ==> fitness == old(self).seed_fitness(params),
            forall|p: &T| #[trigger] final(self).seed_fitness(p) == old(self).seed_fitness(p),
            forall|o: &Self| #[trigger] final(self).descends_from(o) == old(self).descends_from(o),
            forall|o: &Self| #[trigger] o.descends_from(final(self)) == o.descends_from(old(self)),
    ;
}

} // verus!
