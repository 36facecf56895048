use rand::rngs::StdRng;
use rand::SeedableRng;
use soft_evolution::l_system::cell::{Cell, Direction};
use soft_evolution::l_system::grid::Grid;
use soft_evolution::l_system::ruleset::MAX_RULES;
use soft_evolution::l_system::{is_valid, EngineError};
use soft_evolution::ls_evolve::{apply, mutate, Mutation, LS};

const P: Cell = Cell::Passive;
const E: Cell = Cell::Empty;

fn stem(n: u8) -> Cell {
    Cell::Stem(n, Direction::UP)
}

fn line_rule() -> Grid {
    Grid::vertical(vec![P, stem(0)], 0)
}

#[test]
fn slots_stand_for_operators() {
    assert_eq!(Mutation::for_slot(0, 3), Mutation::DeleteRule);
    assert_eq!(Mutation::for_slot(0, 2), Mutation::MutateCells);
    assert_eq!(Mutation::for_slot(0, 1), Mutation::MutateCells);
    assert_eq!(Mutation::for_slot(1, 1), Mutation::AddRule);
    assert_eq!(Mutation::for_slot(1, MAX_RULES - 1), Mutation::AddRule);
    assert_eq!(Mutation::for_slot(1, MAX_RULES), Mutation::MutateCells);
    assert_eq!(Mutation::for_slot(2, 1), Mutation::ExpandRule);
    assert_eq!(Mutation::for_slot(3, 1), Mutation::ContractRule);
    assert_eq!(Mutation::for_slot(4, 1), Mutation::SeparateRule);
    assert_eq!(Mutation::for_slot(4, MAX_RULES), Mutation::MutateCells);
    for slot in 5..20 {
        assert_eq!(Mutation::for_slot(slot, 4), Mutation::MutateCells);
    }
}

#[test]
fn new_starts_from_the_seed() {
    let agent = LS::new(vec![line_rule()]);
    assert_eq!(agent.0.state().contents(), &vec![stem(0)]);
    assert_eq!(agent.0.state().shift(), [0, 0]);
    assert_eq!(agent.0.queue().len(), 1);
    assert_eq!(agent.0.queue()[0], [0, 0]);
    assert_eq!(agent.0.rules().len(), 1);
}

#[test]
fn reset_returns_to_the_seed_and_keeps_the_rules() {
    let mut agent = LS::new(vec![line_rule(), Grid::single(P)]);
    assert_eq!(agent.0.run(6), Ok(6));
    assert_eq!(agent.0.state().height(), 7);
    agent.reset();
    assert_eq!(agent.0.state().contents(), &vec![stem(0)]);
    assert_eq!(agent.0.state().width(), 1);
    assert_eq!(agent.0.state().height(), 1);
    assert_eq!(agent.0.queue().len(), 1);
    assert_eq!(agent.0.queue()[0], [0, 0]);
    assert_eq!(agent.0.rules().len(), 2);
    assert_eq!(agent.0.rules()[0].contents(), &vec![P, stem(0)]);
}

#[test]
fn random_agents_are_valid() {
    let mut counts = [0; 6];
    for seed in 0..200 {
        let agent = LS::new_random(&mut StdRng::seed_from_u64(seed));
        let n = agent.0.rules().len();
        assert!(n >= 1 && n <= 5);
        counts[n] += 1;
        assert!(is_valid(agent.0.rules()));
        for rule in agent.0.rules() {
            assert!(rule.width() >= 1 && rule.width() <= 4);
            assert!(rule.height() >= 1 && rule.height() <= 4);
            assert!(rule.shift()[0] < rule.width());
            assert!(rule.shift()[1] < rule.height());
            assert_eq!(rule.contents().len() as u32, rule.width() * rule.height());
        }
        let state = agent.0.state();
        assert_eq!((state.width(), state.height(), state.shift()), (1, 1, [0, 0]));
        match state.at([0, 0]) {
            Cell::Stem(t, _) => assert!((t as usize) < n),
            _ => panic!("the state of a random agent is no stem"),
        }
        assert_eq!(agent.0.queue().len(), 1);
        assert_eq!(agent.0.queue()[0], [0, 0]);
    }
    assert_eq!(counts[0], 0);
    for n in 1..=5 {
        assert!(counts[n] > 0);
    }
}

#[test]
fn mutation_keeps_rule_sets_valid_and_normal() {
    for factor in [0u32, 250, 500, 1000] {
        let mut rules = vec![
            Grid::new(2, 2, vec![stem(1), P, stem(2), E], [0, 0]),
            Grid::horizontal(&[stem(1), stem(0), E], 1),
            Grid::vertical(vec![P, stem(0), stem(2)], 0),
        ];
        let mut rng = StdRng::seed_from_u64(factor as u64);
        for _ in 0..300 {
            mutate(&mut rules, factor, &mut rng);
            assert!(!rules.is_empty());
            assert!(rules.len() <= MAX_RULES);
            assert!(is_valid(&rules));
            for rule in rules.iter() {
                assert_eq!(rule.contents().len() as u32, rule.width() * rule.height());
                assert!(rule.shift()[0] < rule.width());
                assert!(rule.shift()[1] < rule.height());
                // trimmed: a second trimming finds nothing to take
                let mut again = rule.clone();
                assert!(!again.try_contract_empty());
            }
        }
    }
}

#[test]
fn children_start_from_the_seed_with_mutated_rules() {
    let parent = LS::new(vec![line_rule()]);
    let mut differing = 0;
    for seed in 0..50 {
        let child = LS::new_mutated(&parent, 500, &mut StdRng::seed_from_u64(seed));
        assert_eq!(child.0.state().contents(), &vec![stem(0)]);
        assert_eq!(child.0.queue().len(), 1);
        assert!(is_valid(child.0.rules()));
        if child.0.rules().len() != 1 || child.0.rules()[0].contents() != parent.0.rules()[0].contents() {
            differing += 1;
        }
    }
    assert!(differing > 0);
    assert_eq!(parent.0.rules()[0].contents(), &vec![P, stem(0)]);
}

#[test]
fn evaluate_grows_and_counts() {
    let goal = Grid::vertical(vec![P, P, P, P], 0);
    let mut agent = LS::new(vec![line_rule()]);
    // after 3 steps: P P P S upwards from the origin
    assert_eq!(agent.evaluate(&goal, 3), Ok((3, 1)));
    assert_eq!(agent.0.state().height(), 4);
    agent.reset();
    // after 5 steps: P P P P P S; the goal has 4 of them
    assert_eq!(agent.evaluate(&goal, 5), Ok((4, 2)));
    agent.reset();
    assert_eq!(agent.evaluate(&goal, 0), Ok((0, 4)));

    let mut dud = LS::new(vec![Grid::single(E)]);
    assert_eq!(dud.evaluate(&goal, 9), Ok((0, 4)));
    assert_eq!(dud.0.state().contents(), &vec![stem(0)]);

    let mut stray = LS::new(vec![line_rule()]);
    stray.0.set_state(Grid::single(stem(1)));
    assert_eq!(stray.evaluate(&goal, 9), Err(EngineError::InvariantViolated));
}

#[test]
fn rule_sizes_are_the_cell_counts() {
    let agent = LS::new(vec![line_rule(), Grid::single(P), Grid::new(3, 2, vec![E; 6], [0, 0])]);
    assert_eq!(agent.rule_sizes(), vec![2, 1, 6]);
}

fn three_rules() -> Vec<Grid> {
    vec![
        Grid::new(2, 2, vec![stem(1), P, stem(2), E], [0, 0]),
        Grid::horizontal(&[stem(1), stem(0), E], 1),
        Grid::vertical(vec![P, stem(0), stem(2)], 0),
    ]
}

fn cell_count(rules: &[Grid]) -> usize {
    rules.iter().map(|g| g.contents().len()).sum()
}

#[test]
fn apply_applies_the_operator_it_is_given() {
    for seed in 0..20 {
        let mut rng = StdRng::seed_from_u64(seed);

        let mut deleted = three_rules();
        apply(&mut deleted, Mutation::DeleteRule, 500, &mut rng);
        assert_eq!(deleted.len(), 2);

        let mut added = three_rules();
        apply(&mut added, Mutation::AddRule, 500, &mut rng);
        assert_eq!(added.len(), 4);

        let mut expanded = three_rules();
        apply(&mut expanded, Mutation::ExpandRule, 500, &mut rng);
        assert_eq!(expanded.len(), 3);
        assert!(cell_count(&expanded) > cell_count(&three_rules()));

        let mut contracted = three_rules();
        apply(&mut contracted, Mutation::ContractRule, 500, &mut rng);
        assert_eq!(contracted.len(), 3);
        assert!(cell_count(&contracted) <= cell_count(&three_rules()));

        // every type of the three has two stems that refer to it
        let mut separated = three_rules();
        apply(&mut separated, Mutation::SeparateRule, 500, &mut rng);
        assert_eq!(separated.len(), 4);
        assert_eq!(cell_count(&separated[..3]), cell_count(&three_rules()));

        let mut redrawn = three_rules();
        apply(&mut redrawn, Mutation::MutateCells, 500, &mut rng);
        assert_eq!(redrawn.len(), 3);
        assert_eq!(cell_count(&redrawn), cell_count(&three_rules()));

        for rules in [deleted, added, expanded, contracted, separated, redrawn] {
            assert!(is_valid(&rules));
        }
    }
}
