//! A genetic algorithm with elitism and tournament selection.

pub mod evolve;

use rand::rngs::StdRng;
use vstd::prelude::*;
use vstd::seq_lib::{to_multiset_insert, to_multiset_remove};

use crate::random::{draw_below, seeded};
use evolve::{Evolve, MAX_FACTOR};

verus! {

/// A population of agents with their fitness, fittest first once a
/// generation is through, and what is needed to breed the next one.
pub struct GeneticAlgorithm<T, U> where T: Evolve<U> {
    rng: StdRng,
    /// How strongly children are mutated, in thousandths.
    pub mutation_factor: u32,
    /// The size that the population is bred up to.
    pub generation_count: usize,
    /// How many agents live on into the next generation.
    pub survivors_count: usize,
    /// How many candidates compete for each place among the survivors.
    pub tournament_size: usize,
    agents: Vec<(T, i64)>,
    generation_number: u32,
    params: U,
}

/// What the public fields of a [`GeneticAlgorithm`] hold.
pub struct Settings {
    pub mutation_factor: u32,
    pub generation_count: usize,
    pub survivors_count: usize,
    pub tournament_size: usize,
}

/// The fitness values fall, or stay, along the sequence.
pub open spec fn is_descending<T>(agents: Seq<(T, i64)>) -> bool {
    forall|a: int, b: int| 0 <= a < b < agents.len() ==> agents[a].1 >= agents[b].1
}

/// Every agent keeps what it needs to hold.
pub open spec fn all_inv<T: Evolve<U>, U>(agents: Seq<(T, i64)>) -> bool {
    forall|i: int| 0 <= i < agents.len() ==> (#[trigger] agents[i]).0.inv()
}

/// Every agent is ready to be judged.
pub open spec fn all_seeded<T: Evolve<U>, U>(agents: Seq<(T, i64)>) -> bool {
    forall|i: int| 0 <= i < agents.len() ==> (#[trigger] agents[i]).0.is_seeded()
}

/// The fitness noted for every agent is the one it shows under `params`
/// when judged after a reset.
pub open spec fn all_current<T: Evolve<U>, U>(agents: Seq<(T, i64)>, params: &U) -> bool {
    forall|i: int| 0 <= i < agents.len() ==> (#[trigger] agents[i]).1 == agents[i].0.seed_fitness(params)
}

/// Agent by agent, `after` shows after a reset what `before` shows.
pub open spec fn same_fitness<T: Evolve<U>, U>(before: Seq<(T, i64)>, after: Seq<(T, i64)>) -> bool {
    &&& before.len() == after.len()
    &&& forall|i: int, p: &U|
        0 <= i < before.len() ==> #[trigger] after[i].0.seed_fitness(p) == before[i].0.seed_fitness(p)
}

/// Two agents show the same fitness after a reset, whatever the parameters.
pub open spec fn same_showing<T: Evolve<U>, U>(a: T, b: T) -> bool {
    forall|p: &U| #[trigger] a.seed_fitness(p) == b.seed_fitness(p)
}

/// Agent by agent, who descends from whom is in `after` as it is in `before`.
pub open spec fn same_descent<T: Evolve<U>, U>(before: Seq<(T, i64)>, after: Seq<(T, i64)>) -> bool {
    &&& before.len() == after.len()
    &&& forall|k: int, s: int|
        0 <= k < after.len() && 0 <= s < after.len() ==> #[trigger] after[k].0.descends_from(
            &after[s].0,
        ) == before[k].0.descends_from(&before[s].0)
}

/// `kept` holds members of `old`, each at most once, the first of `old`
/// first: entry `s` of `kept` is entry `from[s]` of `old`.
pub open spec fn is_picked_from<T>(old: Seq<(T, i64)>, kept: Seq<(T, i64)>, from: Seq<int>) -> bool {
    &&& from.len() == kept.len()
    &&& kept.len() > 0 ==> from[0] == 0
    &&& forall|s: int| 0 <= s < from.len() ==> 0 <= #[trigger] from[s] < old.len()
    &&& forall|s: int, r: int| 0 <= s < r < from.len() ==> from[s] != from[r]
    &&& forall|s: int| 0 <= s < kept.len() ==> #[trigger] kept[s] == old[from[s]]
}

/// Agent `k` is a child of one of the first `parents` agents.
pub open spec fn has_parent<T: Evolve<U>, U>(agents: Seq<(T, i64)>, k: int, parents: int) -> bool {
    exists|s: int| 0 <= s < parents && #[trigger] agents[k].0.descends_from(&agents[s].0)
}

/// `bred` is what a generation makes of `old`: its first `survivors` agents
/// are members of `old`, each at most once and the first of `old` first,
/// as these show after their reset; every other agent is a child of one of
/// them.
pub open spec fn is_bred_from<T: Evolve<U>, U>(
    old: Seq<(T, i64)>,
    bred: Seq<(T, i64)>,
    from: Seq<int>,
    survivors: int,
) -> bool {
    &&& 1 <= survivors <= bred.len()
    &&& from.len() == survivors
    &&& from[0] == 0
    &&& forall|s: int| 0 <= s < survivors ==> 0 <= #[trigger] from[s] < old.len()
    &&& forall|s: int, r: int| 0 <= s < r < survivors ==> from[s] != from[r]
    &&& forall|s: int|
        0 <= s < survivors ==> same_showing::<T, U>((#[trigger] bred[s]).0, old[from[s]].0)
    &&& forall|k: int| survivors <= k < bred.len() ==> #[trigger] has_parent::<T, U>(bred, k, survivors)
}

/// `new` holds, in some order, the agents that a generation with
/// `survivors` survivors makes of `old`, see [`is_bred_from`].
pub open spec fn is_generation_of<T: Evolve<U>, U>(
    old: Seq<(T, i64)>,
    new: Seq<(T, i64)>,
    survivors: int,
) -> bool {
    exists|bred: Seq<(T, i64)>, from: Seq<int>|
        new.to_multiset() == bred.to_multiset() && #[trigger] is_bred_from::<T, U>(
            old,
            bred,
            from,
            survivors,
        )
}

/// Exchanges two entries.
fn swap_entries<T>(v: &mut Vec<T>, i: usize, j: usize)
    requires
        i <= j < old(v).len(),
    ensures
        final(v)@ == old(v)@.update(i as int, old(v)@[j as int]).update(j as int, old(v)@[i as int]),
{
    if i < j {
        let ghost s0 = v@;
        let b: T = v.remove(j);
        let a: T = v.remove(i);
        v.insert(i, b);
        v.insert(j, a);
        assert(v@ =~= s0.update(i as int, s0[j as int]).update(j as int, s0[i as int]));
    } else {
        assert(v@ =~= v@.update(i as int, v@[j as int]).update(j as int, v@[i as int]));
    }
}

/// Sorts by fitness, fittest first. Agents of equal fitness keep their order.
fn sort_descending<T>(v: &mut Vec<(T, i64)>)
    ensures
        final(v)@.to_multiset() == old(v)@.to_multiset(),
        final(v)@.len() == old(v)@.len(),
        is_descending(final(v)@),
{
    let n: usize = v.len();
    let mut k: usize = 1;
    while k < n
        invariant
            n == v.len(),
            1 <= k,
            v@.to_multiset() == old(v)@.to_multiset(),
            forall|a: int, b: int| 0 <= a < b < k && b < n ==> v@[a].1 >= v@[b].1,
        decreases n - k,
    {
        let key: i64 = v[k].1;
        let mut p: usize = 0;
        while p < k && v[p].1 >= key
            invariant
                n == v.len(),
                k < n,
                p <= k,
                key == v@[k as int].1,
                forall|a: int| 0 <= a < p ==> v@[a].1 >= key,
            decreases k - p,
        {
            p += 1;
        }
        if p < k {
            let ghost s0 = v@;
            let x: (T, i64) = v.remove(k);
            let ghost s1 = v@;
            v.insert(p, x);
            proof {
                to_multiset_remove(s0, k as int);
                to_multiset_insert(s1, p as int, x);
                assert(s0.to_multiset().count(x) > 0) by {
                    vstd::seq_lib::to_multiset_contains(s0, x);
                    assert(s0[k as int] == x);
                    assert(s0.contains(x));
                }
                assert(v@.to_multiset() =~= s0.to_multiset());
                assert forall|a: int, b: int| 0 <= a < b < k + 1 implies v@[a].1 >= v@[b].1 by {
                    if b < p {
                        assert(v@[a] == s0[a] && v@[b] == s0[b]);
                    } else if b == p {
                        assert(v@[a] == s0[a]);
                    } else {
                        assert(v@[b] == s0[b - 1]);
                        if a < p {
                            assert(v@[a] == s0[a]);
                        } else if a == p {
                            assert(s0[p as int].1 < key);
                            assert(p as int <= b - 1);
                        } else {
                            assert(v@[a] == s0[a - 1]);
                        }
                    }
                }
            }
        }
        k += 1;
    }
}

/// The winner of a tournament: which of the candidates, given by their
/// indices among the agents, is the fittest, the first of them among equals.
pub fn fittest_of<T>(agents: &[(T, i64)], candidates: &[usize]) -> (winner: usize)
    requires
        candidates.len() > 0,
        forall|k: int| 0 <= k < candidates.len() ==> #[trigger] candidates[k] < agents.len(),
    ensures
        winner < candidates.len(),
        forall|k: int|
            0 <= k < candidates.len() ==> agents[candidates[winner as int] as int].1
                >= agents[#[trigger] candidates[k] as int].1,
        forall|k: int|
            0 <= k < winner ==> agents[candidates[winner as int] as int].1
                > agents[#[trigger] candidates[k] as int].1,
{
    let mut winner: usize = 0;
    let mut k: usize = 1;
    while k < candidates.len()
        invariant
            1 <= k <= candidates.len(),
            winner < k,
            forall|j: int| 0 <= j < candidates.len() ==> #[trigger] candidates[j] < agents.len(),
            forall|j: int|
                0 <= j < k ==> agents[candidates[winner as int] as int].1
                    >= agents[#[trigger] candidates[j] as int].1,
            forall|j: int|
                0 <= j < winner ==> agents[candidates[winner as int] as int].1
                    > agents[#[trigger] candidates[j] as int].1,
        decreases candidates.len() - k,
    {
        if agents[candidates[k]].1 > agents[candidates[winner]].1 {
            winner = k;
        }
        k += 1;
    }
    winner
}

/// The first of a descending sequence is at least as fit as any entry of a
/// sequence that holds the same entries.
pub proof fn lemma_first_is_fittest<T>(sorted: Seq<(T, i64)>, other: Seq<(T, i64)>, i: int)
    requires
        is_descending(sorted),
        sorted.to_multiset() == other.to_multiset(),
        0 <= i < other.len(),
    ensures
        sorted.len() == other.len(),
        sorted[0].1 >= other[i].1,
        exists|k: int| 0 <= k < sorted.len() && sorted[k] == other[i],
{
    vstd::seq_lib::to_multiset_len(sorted);
    vstd::seq_lib::to_multiset_len(other);
    vstd::seq_lib::to_multiset_contains(other, other[i]);
    vstd::seq_lib::to_multiset_contains(sorted, other[i]);
    assert(other.contains(other[i]));
    assert(sorted.contains(other[i]));
    let k = choose|k: int| 0 <= k < sorted.len() && sorted[k] == other[i];
    assert(sorted[k] == other[i]);
}

impl<T, U> GeneticAlgorithm<T, U> where T: Evolve<U> {
    /// The agents with their fitness, in order.
    pub closed spec fn population(&self) -> Seq<(T, i64)> {
        self.agents@
    }

    /// The parameters under which fitness is judged.
    pub closed spec fn parameters(&self) -> &U {
        &self.params
    }

    /// The number of generations bred.
    pub closed spec fn generation(&self) -> u32 {
        self.generation_number
    }

    /// The settings, as the public fields hold them.
    pub closed spec fn settings(&self) -> Settings {
        Settings {
            mutation_factor: self.mutation_factor,
            generation_count: self.generation_count,
            survivors_count: self.survivors_count,
            tournament_size: self.tournament_size,
        }
    }

    /// Every agent keeps what it needs to hold.
    pub open spec fn wf(&self) -> bool {
        all_inv::<T, U>(self.population())
    }

    /// The fitness noted for every agent is the one it would show now.
    pub open spec fn is_current(&self) -> bool {
        all_current::<T, U>(self.population(), self.parameters())
    }

    /// A generation can be bred: there is a survivor, there are agents
    /// enough to survive, a tournament has a candidate, the mutation factor
    /// is within its range and the count of generations can go up.
    pub open spec fn can_breed(&self) -> bool {
        &&& 1 <= self.settings().survivors_count <= self.population().len()
        &&& 1 <= self.settings().tournament_size
        &&& self.settings().mutation_factor <= MAX_FACTOR
        &&& self.generation() < u32::MAX
    }

    /// A population of `generation_count` random agents, judged once. The
    /// random source of the algorithm is its own and starts from `seed`.
    pub fn new(
        generation_count: usize,
        survivors_count: usize,
        mutation_factor: u32,
        params: U,
        seed: u64,
    ) -> (algorithm: Self)
        ensures
            algorithm.wf(),
            algorithm.population().len() == generation_count,
            algorithm.generation() == 0,
            algorithm.settings() == (Settings {
                mutation_factor,
                generation_count,
                survivors_count,
                tournament_size: 5,
            }),
            *algorithm.parameters() == params,
    {
        let mut rng: StdRng = seeded(seed);
        let agents: Vec<(T, i64)> = Self::random_population(generation_count, &mut rng);
        let mut algorithm = Self {
            rng,
            mutation_factor,
            generation_count,
            survivors_count,
            tournament_size: 5,
            agents,
            generation_number: 0,
            params,
        };
        algorithm.calculate_fitnesses();
        algorithm
    }

    /// `count` random agents, not yet judged.
    fn random_population(count: usize, rng: &mut StdRng) -> (agents: Vec<(T, i64)>)
        ensures
            agents.len() == count,
            all_inv::<T, U>(agents@),
    {
        let mut agents: Vec<(T, i64)> = Vec::new();
        while agents.len() < count
            invariant
                agents.len() <= count,
                all_inv::<T, U>(agents@),
            decreases count - agents.len(),
        {
            let agent: T = T::new_random(rng);
            agents.push((agent, 0));
        }
        agents
    }

    /// Judges every agent under the parameters and notes its fitness.
    fn calculate_fitnesses(&mut self)
        requires
            old(self).wf(),
        ensures
            final(self).wf(),
            same_fitness::<T, U>(old(self).population(), final(self).population()),
            same_descent::<T, U>(old(self).population(), final(self).population()),
            forall|i: int|
                0 <= i < old(self).population().len() && (#[trigger] old(self).population()[i]).0.is_seeded()
                    ==> final(self).population()[i].1 == old(self).population()[i].0.seed_fitness(
                    old(self).parameters(),
                ),
            final(self).parameters() == old(self).parameters(),
            final(self).generation() == old(self).generation(),
            final(self).settings() == old(self).settings(),
    {
        let ghost before = self.agents@;
        let count: usize = self.agents.len();
        let mut i: usize = 0;
        while i < count
            invariant
                count == self.agents@.len(),
                count == before.len(),
                i <= count,
                before == old(self).agents@,
                self.params == old(self).params,
                self.generation_number == old(self).generation_number,
                self.generation_count == old(self).settings().generation_count,
                self.survivors_count == old(self).settings().survivors_count,
                self.tournament_size == old(self).settings().tournament_size,
                self.mutation_factor == old(self).settings().mutation_factor,
                all_inv::<T, U>(self.agents@),
                same_fitness::<T, U>(before, self.agents@),
                same_descent::<T, U>(before, self.agents@),
                forall|k: int| i <= k < count ==> self.agents@[k] == before[k],
                forall|k: int|
                    0 <= k < i && (#[trigger] before[k]).0.is_seeded() ==> self.agents@[k].1
                        == before[k].0.seed_fitness(&self.params),
            decreases count - i,
        {
            let ghost earlier = self.agents@;
            assert(earlier[i as int].0.inv());
            let entry: &mut (T, i64) = &mut self.agents[i];
            let fitness: i64 = entry.0.fitness(&self.params);
            entry.1 = fitness;
            proof {
                let now = self.agents@;
                assert forall|k: int| 0 <= k < now.len() implies (#[trigger] now[k]).0.inv() by {
                    if k != i {
                        assert(now[k] == earlier[k]);
                        assert(earlier[k].0.inv());
                    }
                }
                assert forall|k: int, p: &U| 0 <= k < before.len() implies #[trigger] now[k].0.seed_fitness(
                    p,
                ) == before[k].0.seed_fitness(p) by {
                    assert(earlier[k].0.seed_fitness(p) == before[k].0.seed_fitness(p));
                    if k != i {
                        assert(now[k] == earlier[k]);
                    }
                }
                assert forall|k: int| i + 1 <= k < count implies now[k] == before[k] by {
                    assert(now[k] == earlier[k]);
                }
                assert forall|k: int, s: int|
                    0 <= k < now.len() && 0 <= s < now.len() implies #[trigger] now[k].0.descends_from(
                    &now[s].0,
                ) == before[k].0.descends_from(&before[s].0) by {
                    assert(earlier[k].0.descends_from(&earlier[s].0) == before[k].0.descends_from(
                        &before[s].0,
                    ));
                    if k != i {
                        assert(now[k] == earlier[k]);
                    }
                    if s != i {
                        assert(now[s] == earlier[s]);
                    }
                    // first the parent's side, then the child's
                    assert(earlier[k].0.descends_from(&now[s].0) == earlier[k].0.descends_from(
                        &earlier[s].0,
                    ));
                    assert(now[k].0.descends_from(&now[s].0) == earlier[k].0.descends_from(
                        &now[s].0,
                    ));
                }
                assert forall|k: int| 0 <= k < i + 1 && (#[trigger] before[k]).0.is_seeded() implies now[k].1
                    == before[k].0.seed_fitness(&self.params) by {
                    if k < i {
                        assert(now[k] == earlier[k]);
                    }
                }
            }
            i += 1;
        }
    }

    /// Breeds mutated children of parents drawn uniformly among the agents
    /// present at the start, until the population has `generation_count`
    /// agents.
    fn reproduce(&mut self)
        requires
            old(self).wf(),
            old(self).population().len() > 0,
            old(self).settings().mutation_factor <= MAX_FACTOR,
        ensures
            final(self).wf(),
            final(self).population().len() == vstd::math::max(
                old(self).population().len() as int,
                old(self).settings().generation_count as int,
            ),
            final(self).population().take(old(self).population().len() as int) == old(self).population(),
            forall|k: int|
                old(self).population().len() <= k < final(self).population().len() ==> (#[trigger] final(self).population()[k]).0.is_seeded(),
            forall|k: int|
                old(self).population().len() <= k < final(self).population().len() ==> #[trigger] has_parent::<
                    T,
                    U,
                >(final(self).population(), k, old(self).population().len() as int),
            final(self).parameters() == old(self).parameters(),
            final(self).generation() == old(self).generation(),
            final(self).settings() == old(self).settings(),
    {
        let ghost before = self.agents@;
        let parents: usize = self.agents.len();
        while self.agents.len() < self.generation_count
            invariant
                before == old(self).agents@,
                before.len() > 0,
                parents == before.len(),
                self.agents@.len() >= before.len(),
                self.agents@.len() <= vstd::math::max(before.len() as int, self.generation_count as int),
                self.agents@.take(before.len() as int) == before,
                all_inv::<T, U>(self.agents@),
                forall|k: int|
                    before.len() <= k < self.agents@.len() ==> (#[trigger] self.agents@[k]).0.is_seeded(),
                forall|k: int|
                    before.len() <= k < self.agents@.len() ==> #[trigger] has_parent::<T, U>(
                        self.agents@,
                        k,
                        before.len() as int,
                    ),
                self.params == old(self).params,
                self.generation_number == old(self).generation_number,
                self.generation_count == old(self).settings().generation_count,
                self.survivors_count == old(self).settings().survivors_count,
                self.tournament_size == old(self).settings().tournament_size,
                self.mutation_factor == old(self).settings().mutation_factor,
                self.mutation_factor <= MAX_FACTOR,
            decreases self.generation_count - self.agents@.len(),
        {
            let ghost earlier = self.agents@;
            let chosen: usize = draw_below(&mut self.rng, parents as u64) as usize;
            assert(earlier[chosen as int].0.inv());
            let child: T = T::new_mutated(&self.agents[chosen].0, self.mutation_factor, &mut self.rng);
            self.agents.push((child, 0));
            proof {
                assert(self.agents@.take(before.len() as int) =~= earlier.take(before.len() as int));
                assert forall|k: int| 0 <= k < self.agents@.len() implies (#[trigger] self.agents@[k]).0.inv() by {
                    if k < earlier.len() {
                        assert(self.agents@[k] == earlier[k]);
                        assert(earlier[k].0.inv());
                    }
                }
                assert forall|k: int| before.len() <= k < self.agents@.len() implies #[trigger] has_parent::<
                    T,
                    U,
                >(self.agents@, k, before.len() as int) by {
                    let now = self.agents@;
                    assert(now.take(before.len() as int)[chosen as int] == now[chosen as int]);
                    if k < earlier.len() {
                        assert(has_parent::<T, U>(earlier, k, before.len() as int));
                        let s = choose|s: int|
                            0 <= s < before.len() && #[trigger] earlier[k].0.descends_from(
                                &earlier[s].0,
                            );
                        assert(now[k] == earlier[k]);
                        assert(now[s] == earlier[s]);
                        assert(now[k].0.descends_from(&now[s].0));
                    } else {
                        assert(now[chosen as int] == earlier[chosen as int]);
                        assert(now[k].0.descends_from(&now[chosen as int].0));
                    }
                }
                assert forall|k: int| before.len() <= k < self.agents@.len() implies (
                #[trigger] self.agents@[k]).0.is_seeded() by {
                    if k < earlier.len() {
                        assert(self.agents@[k] == earlier[k]);
                        assert(earlier[k].0.is_seeded());
                    }
                }
            }
        }
    }

    /// Tournament selection in place. The first agent stays where it is. For
    /// each further place among the survivors, `tournament_size` candidates
    /// are drawn uniformly from the agents not yet placed, and the fittest of
    /// them, the first drawn among equals, takes the place. The agents left
    /// over are dropped.
    fn select(&mut self)
        requires
            old(self).wf(),
            1 <= old(self).settings().survivors_count <= old(self).population().len(),
            1 <= old(self).settings().tournament_size,
        ensures
            final(self).wf(),
            final(self).population().len() == old(self).settings().survivors_count,
            exists|from: Seq<int>| #[trigger]
                is_picked_from(old(self).population(), final(self).population(), from),
            final(self).parameters() == old(self).parameters(),
            final(self).generation() == old(self).generation(),
            final(self).settings() == old(self).settings(),
    {
        let ghost before = self.agents@;
        let count: usize = self.agents.len();
        let ghost mut places: Seq<int> = Seq::new(count as nat, |k: int| k);
        let mut i: usize = 1;
        while i < self.survivors_count
            invariant
                before == old(self).agents@,
                count == self.agents@.len(),
                count == before.len(),
                1 <= i,
                1 <= self.survivors_count <= count,
                1 <= self.tournament_size,
                is_picked_from(before, self.agents@, places),
                self.params == old(self).params,
                self.generation_number == old(self).generation_number,
                self.generation_count == old(self).settings().generation_count,
                self.survivors_count == old(self).settings().survivors_count,
                self.tournament_size == old(self).settings().tournament_size,
                self.mutation_factor == old(self).settings().mutation_factor,
            decreases self.survivors_count - i,
        {
            let ghost standing = self.agents@;
            let mut tournament: Vec<usize> = Vec::new();
            let mut round: usize = 0;
            while round < self.tournament_size
                invariant
                    count == self.agents@.len(),
                    self.agents@ == standing,
                    1 <= i < count,
                    round <= self.tournament_size,
                    tournament.len() == round,
                    forall|k: int| 0 <= k < tournament.len() ==> i <= #[trigger] tournament[k] < count,
                    self.params == old(self).params,
                    self.generation_number == old(self).generation_number,
                    self.generation_count == old(self).settings().generation_count,
                    self.survivors_count == old(self).settings().survivors_count,
                    self.tournament_size == old(self).settings().tournament_size,
                    self.mutation_factor == old(self).settings().mutation_factor,
                decreases self.tournament_size - round,
            {
                let candidate: usize = i + draw_below(&mut self.rng, (count - i) as u64) as usize;
                tournament.push(candidate);
                round += 1;
            }
            let winner: usize = tournament[fittest_of(self.agents.as_slice(), tournament.as_slice())];
            swap_entries(&mut self.agents, i, winner);
            proof {
                let swapped = places.update(i as int, places[winner as int]).update(
                    winner as int,
                    places[i as int],
                );
                assert forall|s: int| 0 <= s < swapped.len() implies 0 <= #[trigger] swapped[s]
                    < before.len() by {
                    assert(0 <= places[s] < before.len());
                    assert(0 <= places[i as int] < before.len());
                    assert(0 <= places[winner as int] < before.len());
                }
                assert forall|s: int, r: int| 0 <= s < r < swapped.len() implies swapped[s]
                    != swapped[r] by {
                    let source_s = if s == i { winner as int } else if s == winner { i as int } else { s };
                    let source_r = if r == i { winner as int } else if r == winner { i as int } else { r };
                    assert(swapped[s] == places[source_s]);
                    assert(swapped[r] == places[source_r]);
                    if source_s < source_r {
                        assert(places[source_s] != places[source_r]);
                    } else {
                        assert(places[source_r] != places[source_s]);
                    }
                }
                assert forall|s: int| 0 <= s < self.agents@.len() implies #[trigger] self.agents@[s]
                    == before[swapped[s]] by {
                    assert(standing[s] == before[places[s]]);
                    assert(standing[i as int] == before[places[i as int]]);
                    assert(standing[winner as int] == before[places[winner as int]]);
                }
                places = swapped;
            }
            i += 1;
        }
        let ghost mixed = self.agents@;
        self.agents.truncate(self.survivors_count);
        proof {
            let kept = self.agents@;
            let from = places.take(self.survivors_count as int);
            assert forall|s: int| 0 <= s < from.len() implies 0 <= #[trigger] from[s]
                < before.len() by {
                assert(0 <= places[s] < before.len());
            }
            assert forall|s: int| 0 <= s < kept.len() implies #[trigger] kept[s] == before[from[s]] by {
                assert(mixed[s] == before[places[s]]);
            }
            assert(is_picked_from(before, kept, from));
            assert forall|k: int| 0 <= k < kept.len() implies (#[trigger] kept[k]).0.inv() by {
                assert(kept[k] == before[from[k]]);
                assert(before[from[k]].0.inv());
            }
        }
    }

    /// Resets every agent.
    fn reset_agents(&mut self)
        requires
            old(self).wf(),
        ensures
            final(self).wf(),
            all_seeded::<T, U>(final(self).population()),
            same_fitness::<T, U>(old(self).population(), final(self).population()),
            final(self).parameters() == old(self).parameters(),
            final(self).generation() == old(self).generation(),
            final(self).settings() == old(self).settings(),
    {
        let ghost before = self.agents@;
        let count: usize = self.agents.len();
        let mut i: usize = 0;
        while i < count
            invariant
                count == self.agents@.len(),
                count == before.len(),
                i <= count,
                all_inv::<T, U>(self.agents@),
                same_fitness::<T, U>(before, self.agents@),
                forall|k: int| 0 <= k < i ==> (#[trigger] self.agents@[k]).0.is_seeded(),
                self.params == old(self).params,
                self.generation_number == old(self).generation_number,
                self.generation_count == old(self).settings().generation_count,
                self.survivors_count == old(self).settings().survivors_count,
                self.tournament_size == old(self).settings().tournament_size,
                self.mutation_factor == old(self).settings().mutation_factor,
            decreases count - i,
        {
            let ghost earlier = self.agents@;
            assert(earlier[i as int].0.inv());
            let entry: &mut (T, i64) = &mut self.agents[i];
            entry.0.reset();
            proof {
                let now = self.agents@;
                assert forall|k: int| 0 <= k < now.len() implies (#[trigger] now[k]).0.inv() by {
                    if k != i {
                        assert(now[k] == earlier[k]);
                        assert(earlier[k].0.inv());
                    }
                }
                assert forall|k: int, p: &U| 0 <= k < before.len() implies #[trigger] now[k].0.seed_fitness(
                    p,
                ) == before[k].0.seed_fitness(p) by {
                    assert(earlier[k].0.seed_fitness(p) == before[k].0.seed_fitness(p));
                    if k != i {
                        assert(now[k] == earlier[k]);
                    }
                }
                assert forall|k: int| 0 <= k < i + 1 implies (#[trigger] now[k]).0.is_seeded() by {
                    if k < i {
                        assert(now[k] == earlier[k]);
                        assert(earlier[k].0.is_seeded());
                    }
                }
            }
            i += 1;
        }
    }

    /// Breeds one generation: selects the survivors, resets them, fills the
    /// population up with their mutated children, judges every agent, and
    /// sorts the population, fittest first.
    ///
    /// The new population holds `survivors_count` members of the old one,
    /// each at most once and reset, and besides them only their children:
    /// see [`is_generation_of`].
    ///
    /// The first agent always survives. So the best fitness after the call is
    /// at least what the agent that was first shows when judged anew; and
    /// where the fitness noted for it was that already, the best fitness has
    /// not gone down.
    pub fn perform_generation(&mut self)
        requires
            old(self).wf(),
            old(self).can_breed(),
        ensures
            final(self).wf(),
            final(self).is_current(),
            is_descending(final(self).population()),
            final(self).population().len() == vstd::math::max(
                old(self).settings().survivors_count as int,
                old(self).settings().generation_count as int,
            ),
            is_generation_of::<T, U>(
                old(self).population(),
                final(self).population(),
                old(self).settings().survivors_count as int,
            ),
            exists|k: int|
                0 <= k < final(self).population().len() && forall|p: &U|
                    (#[trigger] final(self).population()[k]).0.seed_fitness(p) == old(
                        self,
                    ).population()[0].0.seed_fitness(p),
            final(self).population()[0].1 >= old(self).population()[0].0.seed_fitness(old(self).parameters()),
            old(self).population()[0].1 == old(self).population()[0].0.seed_fitness(old(self).parameters())
                ==> final(self).population()[0].1 >= old(self).population()[0].1,
            final(self).generation() == old(self).generation() + 1,
            final(self).parameters() == old(self).parameters(),
            final(self).settings() == old(self).settings(),
    {
        let ghost start = self.agents@;
        let ghost survivors = self.survivors_count as int;
        self.select();
        let ghost chosen = self.agents@;
        let ghost from = choose|from: Seq<int>| #[trigger] is_picked_from(start, chosen, from);
        self.reset_agents();
        let ghost seeded_agents = self.agents@;
        self.reproduce();
        let ghost grown = self.agents@;
        proof {
            assert forall|k: int| 0 <= k < grown.len() implies (#[trigger] grown[k]).0.is_seeded() by {
                if k < seeded_agents.len() {
                    assert(grown.take(seeded_agents.len() as int)[k] == grown[k]);
                    assert(seeded_agents[k].0.is_seeded());
                }
            }
            assert(grown.take(seeded_agents.len() as int)[0] == grown[0]);
        }
        self.calculate_fitnesses();
        let ghost judged = self.agents@;
        proof {
            assert forall|k: int| 0 <= k < judged.len() implies (#[trigger] judged[k]).1
                == judged[k].0.seed_fitness(&self.params) by {
                assert(grown[k].0.is_seeded());
            }
        }
        proof {
            assert forall|s: int| 0 <= s < survivors implies same_showing::<T, U>(
                (#[trigger] judged[s]).0,
                start[from[s]].0,
            ) by {
                assert(grown.take(survivors)[s] == grown[s]);
                assert(chosen[s] == start[from[s]]);
                assert forall|p: &U| #[trigger] judged[s].0.seed_fitness(p) == start[from[s]].0.seed_fitness(
                    p,
                ) by {
                    assert(judged[s].0.seed_fitness(p) == grown[s].0.seed_fitness(p));
                    assert(seeded_agents[s].0.seed_fitness(p) == chosen[s].0.seed_fitness(p));
                }
            }
            assert forall|k: int| survivors <= k < judged.len() implies #[trigger] has_parent::<T, U>(
                judged,
                k,
                survivors,
            ) by {
                assert(has_parent::<T, U>(grown, k, survivors));
                let s = choose|s: int|
                    0 <= s < survivors && #[trigger] grown[k].0.descends_from(&grown[s].0);
                assert(judged[k].0.descends_from(&judged[s].0) == grown[k].0.descends_from(
                    &grown[s].0,
                ));
            }
            assert(is_bred_from::<T, U>(start, judged, from, survivors));
        }
        sort_descending(&mut self.agents);
        self.generation_number += 1;
        proof {
            let sorted = self.agents@;
            assert(is_generation_of::<T, U>(start, sorted, survivors));
            lemma_first_is_fittest(sorted, judged, 0);
            assert forall|k: int| 0 <= k < sorted.len() implies (#[trigger] sorted[k]).1
                == sorted[k].0.seed_fitness(&self.params) && sorted[k].0.inv() by {
                vstd::seq_lib::to_multiset_contains(sorted, sorted[k]);
                assert(sorted.contains(sorted[k]));
                vstd::seq_lib::to_multiset_contains(judged, sorted[k]);
                let j = choose|j: int| 0 <= j < judged.len() && judged[j] == sorted[k];
                assert(judged[j].0.inv());
                assert(judged[j].1 == judged[j].0.seed_fitness(&self.params));
            }
            let k = choose|k: int| 0 <= k < sorted.len() && sorted[k] == judged[0];
            assert forall|p: &U| (#[trigger] sorted[k]).0.seed_fitness(p) == start[0].0.seed_fitness(
                p,
            ) by {
                assert(judged[0].0.seed_fitness(p) == grown[0].0.seed_fitness(p));
                assert(seeded_agents[0].0.seed_fitness(p) == chosen[0].0.seed_fitness(p));
            }
            assert(judged[0].0.seed_fitness(&self.params) == grown[0].0.seed_fitness(&self.params));
            assert(seeded_agents[0].0.seed_fitness(&self.params) == chosen[0].0.seed_fitness(
                &self.params,
            ));
        }
    }

    /// Breeds `n` generations. The best fitness at the end is at least what
    /// the agent that was first at the start shows when judged anew.
    pub fn perform_generations(&mut self, n: u32)
        requires
            old(self).wf(),
            old(self).can_breed(),
            old(self).generation() + n <= u32::MAX,
        ensures
            final(self).wf(),
            final(self).generation() == old(self).generation() + n,
            n > 0 ==> final(self).is_current() && is_descending(final(self).population())
                && final(self).population().len() == vstd::math::max(
                old(self).settings().survivors_count as int,
                old(self).settings().generation_count as int,
            ),
            n > 0 ==> final(self).population()[0].1 >= old(self).population()[0].0.seed_fitness(
                old(self).parameters(),
            ),
            n == 0 ==> final(self).population() == old(self).population(),
            final(self).parameters() == old(self).parameters(),
            final(self).settings() == old(self).settings(),
    {
        let ghost least: i64 = self.agents@[0].0.seed_fitness(&self.params);
        let mut done: u32 = 0;
        while done < n
            invariant
                done <= n,
                self.wf(),
                done == 0 ==> least == self.agents@[0].0.seed_fitness(&self.params),
                done > 0 ==> self.agents@[0].1 >= least,
                1 <= self.survivors_count,
                1 <= self.tournament_size,
                self.mutation_factor <= MAX_FACTOR,
                done == 0 ==> self.agents@ == old(self).agents@,
                done == 0 ==> self.survivors_count <= self.agents@.len(),
                done > 0 ==> self.is_current() && is_descending(self.population())
                    && self.population().len() == vstd::math::max(
                    self.survivors_count as int,
                    self.generation_count as int,
                ),
                self.generation_number == old(self).generation_number + done,
                old(self).generation_number + n <= u32::MAX,
                self.params == old(self).params,
                self.generation_count == old(self).settings().generation_count,
                self.survivors_count == old(self).settings().survivors_count,
                self.tournament_size == old(self).settings().tournament_size,
                self.mutation_factor == old(self).settings().mutation_factor,
            decreases n - done,
        {
            self.perform_generation();
            done += 1;
        }
    }

    /// Throws the population away and starts again from `generation_count`
    /// random agents, judged once, at generation 0.
    pub fn reset(&mut self)
        ensures
            final(self).wf(),
            final(self).population().len() == old(self).settings().generation_count,
            final(self).generation() == 0,
            final(self).parameters() == old(self).parameters(),
            final(self).settings() == old(self).settings(),
    {
        self.generation_number = 0;
        self.agents = Self::random_population(self.generation_count, &mut self.rng);
        self.calculate_fitnesses();
    }

    /// Replaces the parameters; the fitness noted stays until the next
    /// generation.
    pub fn set_params(&mut self, params: U)
        ensures
            *final(self).parameters() == params,
            final(self).population() == old(self).population(),
            final(self).generation() == old(self).generation(),
            final(self).settings() == old(self).settings(),
    {
        self.params = params;
    }

    /// The parameters under which fitness is judged.
    pub fn params(&self) -> (params: &U)
        ensures
            params == self.parameters(),
    {
        &self.params
    }

    /// The parameters, for tuning between generations.
    pub fn params_mut(&mut self) -> (params: &mut U)
        ensures
            *params == *old(self).parameters(),
            *final(self).parameters() == *final(params),
            final(self).population() == old(self).population(),
            final(self).generation() == old(self).generation(),
            final(self).settings() == old(self).settings(),
    {
        &mut self.params
    }

    /// The first agent: the fittest, once a generation is through.
    pub fn best(&self) -> (agent: &(T, i64))
        requires
            self.population().len() > 0,
        ensures
            *agent == self.population()[0],
    {
        &self.agents[0]
    }

    /// The last agent: the least fit, once a generation is through.
    pub fn worst(&self) -> (agent: &(T, i64))
        requires
            self.population().len() > 0,
        ensures
            *agent == self.population()[self.population().len() - 1],
    {
        &self.agents[self.agents.len() - 1]
    }

    /// The agent in the middle of the population.
    pub fn median(&self) -> (agent: &(T, i64))
        requires
            self.population().len() > 0,
        ensures
            *agent == self.population()[self.population().len() as int / 2],
    {
        &self.agents[self.agents.len() / 2]
    }

    /// All agents with their fitness, in order.
    pub fn agents(&self) -> (agents: &[(T, i64)])
        ensures
            agents@ == self.population(),
    {
        self.agents.as_slice()
    }

    /// The number of generations bred since the population was made.
    pub fn generation_number(&self) -> (n: u32)
        ensures
            n == self.generation(),
    {
        self.generation_number
    }
}

} // verus!
