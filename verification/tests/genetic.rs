use rand::rngs::StdRng;
use rand::Rng;
use soft_evolution::genetic_algorithm::evolve::{Evolve, MAX_FACTOR};
use soft_evolution::genetic_algorithm::{fittest_of, GeneticAlgorithm};
use soft_evolution::l_system::cell::{Cell, Direction};
use soft_evolution::l_system::grid::Grid;
use soft_evolution::ls_evolve::LS;

/// An agent whose fitness is a number it carries; a child carries a number
/// near that of its parent.
struct Number {
    value: i64,
    judged: u32,
    name: u64,
    parent: Option<u64>,
}

impl Evolve<i64> for Number {
    fn inv(&self) -> bool {
        true
    }

    fn is_seeded(&self) -> bool {
        self.judged == 0
    }

    fn seed_fitness(&self, params: &i64) -> i64 {
        -(self.value - *params).abs()
    }

    fn descends_from(&self, parent: &Self) -> bool {
        self.parent == Some(parent.name)
    }

    fn new_random(rng: &mut StdRng) -> Self {
        Number { value: rng.gen_range(-1000..1000), judged: 0, name: rng.gen(), parent: None }
    }

    fn reset(&mut self) {
        self.judged = 0;
    }

    fn new_mutated(other: &Self, factor: u32, rng: &mut StdRng) -> Self {
        let reach = 1 + factor as i64 / 100;
        Number {
            value: other.value + rng.gen_range(-reach..=reach),
            judged: 0,
            name: rng.gen(),
            parent: Some(other.name),
        }
    }

    fn fitness(&mut self, params: &i64) -> i64 {
        self.judged += 1;
        -(self.value - *params).abs()
    }
}

fn fitnesses(ga: &GeneticAlgorithm<Number, i64>) -> Vec<i64> {
    ga.agents().iter().map(|a| a.1).collect()
}

#[test]
fn the_largest_mutation_factor_is_a_thousand() {
    assert_eq!(MAX_FACTOR, 1000);
}

#[test]
fn new_breeds_a_judged_population() {
    let ga: GeneticAlgorithm<Number, i64> = GeneticAlgorithm::new(30, 10, 500, 7, 1);
    assert_eq!(ga.agents().len(), 30);
    assert_eq!(ga.generation_number(), 0);
    assert_eq!(ga.generation_count, 30);
    assert_eq!(ga.survivors_count, 10);
    assert_eq!(ga.mutation_factor, 500);
    assert_eq!(ga.tournament_size, 5);
    assert_eq!(*ga.params(), 7);
    for (agent, fitness) in ga.agents() {
        assert_eq!(*fitness, -(agent.value - 7).abs());
        assert_eq!(agent.judged, 1);
    }
}

#[test]
fn equal_seeds_breed_equal_populations() {
    let mut a: GeneticAlgorithm<Number, i64> = GeneticAlgorithm::new(40, 12, 300, 0, 99);
    let mut b: GeneticAlgorithm<Number, i64> = GeneticAlgorithm::new(40, 12, 300, 0, 99);
    for _ in 0..5 {
        a.perform_generation();
        b.perform_generation();
        assert_eq!(fitnesses(&a), fitnesses(&b));
    }
    let c: GeneticAlgorithm<Number, i64> = GeneticAlgorithm::new(40, 12, 300, 0, 100);
    let d: GeneticAlgorithm<Number, i64> = GeneticAlgorithm::new(40, 12, 300, 0, 99);
    assert_ne!(fitnesses(&c), fitnesses(&d));
}

#[test]
fn a_generation_sorts_and_counts() {
    let mut ga: GeneticAlgorithm<Number, i64> = GeneticAlgorithm::new(25, 8, 500, 0, 3);
    for n in 1..=6 {
        ga.perform_generation();
        assert_eq!(ga.generation_number(), n);
        assert_eq!(ga.agents().len(), 25);
        let f = fitnesses(&ga);
        for w in f.windows(2) {
            assert!(w[0] >= w[1]);
        }
        for (agent, fitness) in ga.agents() {
            assert_eq!(*fitness, -agent.value.abs());
            assert_eq!(*fitness, agent.seed_fitness(ga.params()));
            assert_eq!(agent.judged, 1);
        }
        assert_eq!(ga.best().1, f[0]);
        assert_eq!(ga.worst().1, f[24]);
        assert_eq!(ga.median().1, f[12]);
    }
}

#[test]
fn the_best_fitness_never_falls() {
    for seed in 0..10 {
        let mut ga: GeneticAlgorithm<Number, i64> = GeneticAlgorithm::new(20, 5, 1000, 123, seed);
        ga.perform_generation();
        for _ in 0..30 {
            let before = ga.best().1;
            ga.perform_generation();
            assert!(ga.best().1 >= before);
        }
    }
}

#[test]
fn evolution_approaches_the_goal() {
    let mut ga: GeneticAlgorithm<Number, i64> = GeneticAlgorithm::new(60, 20, 200, 500, 8);
    let start = ga.agents().iter().map(|a| a.1).max().unwrap();
    ga.perform_generations(200);
    assert_eq!(ga.generation_number(), 200);
    assert!(ga.best().1 >= start);
    assert_eq!(ga.best().1, 0);
}

#[test]
fn a_single_survivor_parents_every_child() {
    let mut ga: GeneticAlgorithm<Number, i64> = GeneticAlgorithm::new(10, 1, 0, 0, 4);
    ga.perform_generation();
    let best = ga.best().0.value;
    ga.mutation_factor = 0;
    ga.perform_generation();
    assert_eq!(ga.agents().len(), 10);
    // every child is a child of the one survivor and differs from it by
    // one at most
    let mut survivors = 0;
    for (agent, _) in ga.agents() {
        assert!((agent.value - best).abs() <= 1);
        if agent.value == best {
            survivors += 1;
        }
    }
    assert!(survivors >= 1);
    assert!(ga.best().1 >= -best.abs());
}

#[test]
fn more_survivors_than_the_generation_count_breed_no_children() {
    let mut ga: GeneticAlgorithm<Number, i64> = GeneticAlgorithm::new(10, 10, 500, 0, 4);
    let mut before: Vec<i64> = ga.agents().iter().map(|a| a.0.value).collect();
    ga.generation_count = 6;
    ga.perform_generation();
    assert_eq!(ga.agents().len(), 10);
    let mut after: Vec<i64> = ga.agents().iter().map(|a| a.0.value).collect();
    before.sort();
    after.sort();
    assert_eq!(before, after);
    ga.survivors_count = 4;
    ga.perform_generation();
    assert_eq!(ga.agents().len(), 6);
}

#[test]
fn reset_starts_again_at_generation_zero() {
    let mut ga: GeneticAlgorithm<Number, i64> = GeneticAlgorithm::new(15, 5, 500, 0, 4);
    ga.perform_generations(3);
    assert_eq!(ga.generation_number(), 3);
    ga.generation_count = 9;
    ga.reset();
    assert_eq!(ga.generation_number(), 0);
    assert_eq!(ga.agents().len(), 9);
    for (agent, fitness) in ga.agents() {
        assert_eq!(*fitness, -agent.value.abs());
    }
}

#[test]
fn parameters_can_be_tuned_between_generations() {
    let mut ga: GeneticAlgorithm<Number, i64> = GeneticAlgorithm::new(15, 5, 500, 0, 4);
    ga.set_params(40);
    assert_eq!(*ga.params(), 40);
    *ga.params_mut() = -40;
    assert_eq!(*ga.params(), -40);
    ga.perform_generation();
    for (agent, fitness) in ga.agents() {
        assert_eq!(*fitness, -(agent.value + 40).abs());
    }
}

/// The rewriting agent under a fitness of whole numbers: agreements count
/// for, differences and rule cells against.
struct Grower(LS);

impl Evolve<Grid> for Grower {
    fn inv(&self) -> bool {
        soft_evolution::l_system::is_valid(self.0 .0.rules())
    }

    fn is_seeded(&self) -> bool {
        let state = self.0 .0.state();
        state.contents().len() == 1 && state.at([0, 0]) == Cell::Stem(0, Direction::UP)
    }

    fn seed_fitness(&self, goal: &Grid) -> i64 {
        let mut fresh = Grower(LS::new(self.0 .0.rules().to_vec()));
        fresh.fitness(goal)
    }

    fn descends_from(&self, parent: &Self) -> bool {
        self.0 .0.rules().len() <= parent.0 .0.rules().len() + 1
    }

    fn new_random(rng: &mut StdRng) -> Self {
        Grower(LS::new_random(rng))
    }

    fn reset(&mut self) {
        self.0.reset();
    }

    fn new_mutated(other: &Self, factor: u32, rng: &mut StdRng) -> Self {
        Grower(LS::new_mutated(&other.0, factor, rng))
    }

    fn fitness(&mut self, goal: &Grid) -> i64 {
        let (same, different) = match self.0.evaluate(goal, 12) {
            Ok(counts) => counts,
            Err(_) => panic!("the engine invariant was violated"),
        };
        let size: usize = self.0.rule_sizes().iter().sum();
        10 * same as i64 - 10 * different as i64 - size as i64
    }
}

#[test]
fn rewriting_agents_evolve_towards_a_line() {
    let goal = Grid::vertical(vec![Cell::Passive; 6], 0);
    let mut ga: GeneticAlgorithm<Grower, Grid> = GeneticAlgorithm::new(40, 15, 500, goal, 21);
    ga.perform_generation();
    let first = ga.best().1;
    let mut last = first;
    for _ in 0..25 {
        ga.perform_generation();
        assert!(ga.best().1 >= last);
        last = ga.best().1;
    }
    assert!(last >= first);
    for (agent, fitness) in ga.agents() {
        assert!(agent.inv());
        assert_eq!(*fitness, agent.seed_fitness(ga.params()));
    }
    let best = &ga.best().0 .0;
    assert!(soft_evolution::l_system::is_valid(best.0.rules()));
    assert!(!best.0.rules().is_empty());
}

#[test]
fn the_fittest_candidate_wins_and_the_first_among_equals() {
    let agents: Vec<((), i64)> = vec![((), 5), ((), 9), ((), -3), ((), 9), ((), 0)];
    assert_eq!(fittest_of(&agents, &[0]), 0);
    assert_eq!(fittest_of(&agents, &[2, 0, 4]), 1);
    assert_eq!(fittest_of(&agents, &[2, 4, 0, 1, 3]), 3);
    assert_eq!(fittest_of(&agents, &[3, 1]), 0);
    assert_eq!(fittest_of(&agents, &[2, 2, 2]), 0);
    assert_eq!(fittest_of(&agents, &[4, 2, 4, 0, 0]), 3);
    let lowest: Vec<((), i64)> = vec![((), i64::MIN), ((), i64::MIN)];
    assert_eq!(fittest_of(&lowest, &[1, 0]), 0);
}

#[test]
fn a_generation_keeps_survivors_and_breeds_their_children() {
    for seed in 0..10 {
        let mut ga: GeneticAlgorithm<Number, i64> = GeneticAlgorithm::new(30, 8, 0, 0, seed);
        ga.perform_generation();
        let old: Vec<u64> = ga.agents().iter().map(|a| a.0.name).collect();
        ga.perform_generation();
        assert_eq!(ga.agents().len(), 30);
        // the survivors are old members, each once, the old first among them
        let survivors: Vec<&Number> =
            ga.agents().iter().map(|a| &a.0).filter(|a| old.contains(&a.name)).collect();
        assert_eq!(survivors.len(), 8);
        for (i, a) in survivors.iter().enumerate() {
            for b in &survivors[i + 1..] {
                assert_ne!(a.name, b.name);
            }
        }
        assert!(survivors.iter().any(|a| a.name == old[0]));
        // every other agent is a child of a survivor; with the factor 0 it
        // differs from its parent by one at most
        for (agent, _) in ga.agents() {
            if !old.contains(&agent.name) {
                let parent = survivors.iter().find(|s| agent.descends_from(s));
                assert!(parent.is_some());
                assert!((agent.value - parent.unwrap().value).abs() <= 1);
            }
        }
    }
}
