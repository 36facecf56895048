use rand::rngs::StdRng;
use rand::SeedableRng;
use soft_evolution::l_system::cell::{Cell, Direction};
use soft_evolution::l_system::grid::Grid;
use soft_evolution::l_system::is_valid;
use soft_evolution::l_system::ruleset::{separate_at, Ruleset, MAX_RULES};

const P: Cell = Cell::Passive;
const E: Cell = Cell::Empty;

fn stem(n: u8) -> Cell {
    Cell::Stem(n, Direction::UP)
}

fn sample() -> Vec<Grid> {
    vec![
        Grid::new(2, 2, vec![stem(1), P, stem(2), stem(3)], [0, 0]),
        Grid::horizontal(&[stem(1), stem(0), E], 1),
        Grid::vertical(vec![P, stem(3), stem(2)], 0),
        Grid::single(stem(1)),
    ]
}

fn shapes(rules: &[Grid]) -> Vec<(u32, u32, [u32; 2])> {
    rules.iter().map(|g| (g.width(), g.height(), g.shift())).collect()
}

fn cells(rules: &[Grid]) -> Vec<Vec<Cell>> {
    rules.iter().map(|g| g.contents().clone()).collect()
}

fn holds_invariants(rules: &[Grid]) {
    for g in rules {
        assert_eq!(g.width() as usize * g.height() as usize, g.contents().len());
        assert!(g.shift()[0] < g.width());
        assert!(g.shift()[1] < g.height());
    }
}

#[test]
fn the_rule_limit_is_what_a_byte_can_bound() {
    assert_eq!(MAX_RULES, 255);
}

#[test]
fn delete_rule_removes_one_rule_and_renumbers() {
    for seed in 0..40 {
        let mut rng = StdRng::seed_from_u64(seed);
        let before = sample();
        let mut rules = sample();
        rules.delete_rule(&mut rng);
        assert_eq!(rules.len(), 3);
        assert!(is_valid(&rules));
        // the root is never the one that goes
        assert_eq!(shapes(&rules)[0], shapes(&before)[0]);
        let deleted = (1..4)
            .find(|d| {
                let mut rest = shapes(&before);
                rest.remove(*d);
                rest == shapes(&rules)
            })
            .unwrap();
        let mut sources = cells(&before);
        sources.remove(deleted);
        for (source, now) in sources.iter().zip(cells(&rules).iter()) {
            for (b, a) in source.iter().zip(now.iter()) {
                match *b {
                    Cell::Stem(n, d) if n as usize > deleted => assert_eq!(*a, Cell::Stem(n - 1, d)),
                    Cell::Stem(n, d) if n as usize == deleted => match *a {
                        Cell::Stem(m, e) => {
                            assert_eq!(e, d);
                            assert!(m >= 1 && m < 3);
                        }
                        _ => panic!("a stem of the deleted rule is no stem any more"),
                    },
                    other => assert_eq!(*a, other),
                }
            }
        }
    }
}

#[test]
fn delete_rule_can_take_each_rule_but_the_root() {
    let mut taken = [false; 4];
    for seed in 0..60 {
        let mut rng = StdRng::seed_from_u64(seed);
        let before = sample();
        let mut rules = sample();
        rules.delete_rule(&mut rng);
        for d in 1..4 {
            let mut rest = shapes(&before);
            rest.remove(d);
            if rest == shapes(&rules) {
                taken[d] = true;
            }
        }
    }
    assert_eq!(taken, [false, true, true, true]);
}

#[test]
fn add_rule_appends_a_small_rule_and_sends_stems_to_it() {
    let mut moved = 0;
    for seed in 0..40 {
        let mut rng = StdRng::seed_from_u64(seed);
        let before = sample();
        let mut rules = sample();
        rules.add_rule(&mut rng);
        assert_eq!(rules.len(), 5);
        assert!(is_valid(&rules));
        holds_invariants(&rules);
        assert_eq!(&shapes(&rules)[..4], &shapes(&before)[..]);
        let fresh = &rules[4];
        assert!(fresh.width() >= 1 && fresh.width() <= 4);
        assert!(fresh.height() >= 1 && fresh.height() <= 4);
        for (source, now) in cells(&before).iter().zip(cells(&rules).iter()) {
            for (b, a) in source.iter().zip(now.iter()) {
                if a != b {
                    match (*b, *a) {
                        (Cell::Stem(_, d), Cell::Stem(4, e)) => {
                            assert_eq!(d, e);
                            moved += 1;
                        }
                        _ => panic!("a cell changed otherwise than by going over to the new rule"),
                    }
                }
            }
        }
    }
    assert!(moved > 0);
}

#[test]
fn expand_rule_grows_one_rule_by_one_row_or_column() {
    for seed in 0..40 {
        let mut rng = StdRng::seed_from_u64(seed);
        let before = sample();
        let mut rules = sample();
        rules.expand_rule(&mut rng);
        assert_eq!(rules.len(), 4);
        assert!(is_valid(&rules));
        holds_invariants(&rules);
        let changed: Vec<usize> = (0..4).filter(|i| shapes(&before)[*i] != shapes(&rules)[*i]).collect();
        assert_eq!(changed.len(), 1);
        let i = changed[0];
        let grown = before[i].width() * before[i].height() + before[i].width().max(before[i].height());
        let area = rules[i].width() * rules[i].height();
        assert!(area > before[i].width() * before[i].height());
        assert!(area <= grown);
        for y in -4..=4 {
            for x in -4..=4 {
                if before[i].contains([x, y]) {
                    assert_eq!(rules[i].at([x, y]), before[i].at([x, y]));
                }
            }
        }
    }
}

#[test]
fn contract_rule_contracts_one_rule_or_none() {
    let mut contracted = 0;
    for seed in 0..40 {
        let mut rng = StdRng::seed_from_u64(seed);
        let before = sample();
        let mut rules = sample();
        rules.contract_rule(&mut rng);
        assert_eq!(rules.len(), 4);
        assert!(is_valid(&rules));
        holds_invariants(&rules);
        let changed: Vec<usize> = (0..4).filter(|i| shapes(&before)[*i] != shapes(&rules)[*i]).collect();
        assert!(changed.len() <= 1);
        for i in changed {
            contracted += 1;
            let lost = before[i].width() * before[i].height() - rules[i].width() * rules[i].height();
            assert!(lost == before[i].width() || lost == before[i].height());
            for y in -4..=4 {
                for x in -4..=4 {
                    if rules[i].contains([x, y]) {
                        assert_eq!(rules[i].at([x, y]), before[i].at([x, y]));
                    }
                }
            }
        }
    }
    assert!(contracted > 0);
}

#[test]
fn separate_at_moves_the_occurrences_from_the_cut_on() {
    // stems of type 1, in order: rule 0 cell 0, rule 1 cell 0, rule 3 cell 0;
    // the copy of rule 1 at the end stays as rule 1 was
    let mut rules = sample();
    separate_at(&mut rules, 1, 1);
    assert_eq!(rules.len(), 5);
    assert_eq!(
        cells(&rules),
        vec![
            vec![stem(1), P, stem(2), stem(3)],
            vec![stem(4), stem(0), E],
            vec![P, stem(3), stem(2)],
            vec![stem(4)],
            vec![stem(1), stem(0), E],
        ]
    );
    assert_eq!(shapes(&rules)[4], shapes(&rules)[1]);
    assert!(is_valid(&rules));

    let mut all = sample();
    separate_at(&mut all, 1, 0);
    assert_eq!(
        cells(&all),
        vec![
            vec![stem(4), P, stem(2), stem(3)],
            vec![stem(4), stem(0), E],
            vec![P, stem(3), stem(2)],
            vec![stem(4)],
            vec![stem(1), stem(0), E],
        ]
    );

    let mut last = sample();
    separate_at(&mut last, 1, 2);
    assert_eq!(
        cells(&last),
        vec![
            vec![stem(1), P, stem(2), stem(3)],
            vec![stem(1), stem(0), E],
            vec![P, stem(3), stem(2)],
            vec![stem(4)],
            vec![stem(1), stem(0), E],
        ]
    );
}

#[test]
fn separate_at_leaves_the_copy_as_the_rule_was() {
    let mut rules = vec![Grid::horizontal(&[stem(0), stem(0)], 0)];
    separate_at(&mut rules, 0, 1);
    assert_eq!(cells(&rules), vec![vec![stem(0), stem(1)], vec![stem(0), stem(0)]]);
    assert_eq!(shapes(&rules)[1], (2, 1, [0, 0]));

    let mut whole = vec![Grid::horizontal(&[stem(0), stem(0)], 0)];
    separate_at(&mut whole, 0, 0);
    assert_eq!(cells(&whole), vec![vec![stem(1), stem(1)], vec![stem(0), stem(0)]]);
}

#[test]
fn separate_rule_splits_a_type_or_leaves_the_set() {
    let mut split = 0;
    for seed in 0..40 {
        let mut rng = StdRng::seed_from_u64(seed);
        let before = sample();
        let mut rules = sample();
        rules.separate_rule(&mut rng);
        assert!(is_valid(&rules));
        holds_invariants(&rules);
        if rules.len() == 5 {
            split += 1;
            assert_eq!(&shapes(&rules)[..4], &shapes(&before)[..]);
            let moved = cells(&rules).concat().iter().filter(|c| **c == stem(4)).count();
            assert!(moved >= 1);
        } else {
            assert_eq!(cells(&rules), cells(&before));
        }
    }
    assert!(split > 0);
}

#[test]
fn mutate_cells_redraws_cells_within_the_set() {
    let before = sample();

    let mut untouched = sample();
    untouched.mutate_cells(&mut StdRng::seed_from_u64(1), 0, 10);
    assert_eq!(cells(&untouched), cells(&before));

    let mut changed = 0;
    for seed in 0..20 {
        let mut rules = sample();
        rules.mutate_cells(&mut StdRng::seed_from_u64(seed), 1, 10);
        assert_eq!(shapes(&rules), shapes(&before));
        assert!(is_valid(&rules));
        changed += cells(&rules).concat().iter().zip(cells(&before).concat().iter()).filter(|(a, b)| a != b).count();
    }
    assert!(changed > 0);
    assert!(changed < 20 * 11);

    let mut all = sample();
    all.mutate_cells(&mut StdRng::seed_from_u64(2), 10, 10);
    assert_eq!(shapes(&all), shapes(&before));
    assert!(is_valid(&all));
    assert_ne!(cells(&all), cells(&before));
}

#[test]
fn clear_dead_rules_drops_unused_rules_and_renumbers() {
    let mut rules = vec![
        Grid::horizontal(&[stem(3), P, stem(3)], 0),
        Grid::single(stem(1)),
        Grid::single(P),
        Grid::vertical(vec![stem(0), stem(4)], 1),
        Grid::single(stem(3)),
        Grid::single(E),
    ];
    // used: 0 (root), 1 (by itself), 3, 4; unused: 2 and 5
    rules.clear_dead_rules();
    assert_eq!(
        cells(&rules),
        vec![
            vec![stem(2), P, stem(2)],
            vec![stem(1)],
            vec![stem(0), stem(3)],
            vec![stem(2)],
        ]
    );
    assert_eq!(shapes(&rules)[2], (1, 2, [0, 1]));
    assert!(is_valid(&rules));
}

#[test]
fn clear_dead_rules_keeps_a_set_without_dead_rules() {
    let mut rules = sample();
    rules.clear_dead_rules();
    assert_eq!(cells(&rules), cells(&sample()));
    assert_eq!(shapes(&rules), shapes(&sample()));

    let mut root_only = vec![Grid::single(P)];
    root_only.clear_dead_rules();
    assert_eq!(cells(&root_only), vec![vec![P]]);

    let mut unused_root = vec![Grid::single(stem(1)), Grid::single(stem(1)), Grid::single(P)];
    unused_root.clear_dead_rules();
    assert_eq!(cells(&unused_root), vec![vec![stem(1)], vec![stem(1)]]);
}

#[test]
fn contract_empty_borders_trims_every_rule() {
    let mut rules = vec![
        Grid::new(3, 3, vec![E, E, E, E, P, E, E, E, E], [1, 1]),
        Grid::new(2, 2, vec![stem(0), E, E, E], [0, 0]),
        Grid::single(E),
    ];
    rules.contract_empty_borders();
    assert_eq!(shapes(&rules), vec![(1, 1, [0, 0]), (1, 1, [0, 0]), (1, 1, [0, 0])]);
    assert_eq!(cells(&rules), vec![vec![P], vec![stem(0)], vec![E]]);
}

#[test]
fn clear_dead_rules_judges_references_before_it_removes() {
    // rule 1 is dead; rule 2 is referred to by rule 1 only, and stays
    let mut rules = vec![Grid::single(P), Grid::single(stem(2)), Grid::horizontal(&[P, E], 0)];
    rules.clear_dead_rules();
    assert_eq!(cells(&rules), vec![vec![P], vec![P, E]]);
    rules.clear_dead_rules();
    assert_eq!(cells(&rules), vec![vec![P]]);
}

#[test]
fn mutate_cells_with_every_chance_redraws_every_cell() {
    // stems that refer to no rule of the set cannot outlive a redraw
    for seed in 0..20 {
        let mut rules = vec![
            Grid::new(3, 3, vec![stem(9); 9], [1, 1]),
            Grid::horizontal(&[stem(200), stem(2), stem(77)], 0),
        ];
        rules.mutate_cells(&mut StdRng::seed_from_u64(seed), 7, 7);
        assert_eq!(shapes(&rules), vec![(3, 3, [1, 1]), (3, 1, [0, 0])]);
        assert!(is_valid(&rules));
    }
}
