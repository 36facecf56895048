use soft_evolution::l_system::cell::{Cell, Direction};
use soft_evolution::l_system::grid::Grid;
use soft_evolution::l_system::{is_valid, EngineError, LSystem};

const P: Cell = Cell::Passive;
const E: Cell = Cell::Empty;

fn stem(n: u8, d: Direction) -> Cell {
    Cell::Stem(n, d)
}

fn line_rule() -> Grid {
    // Passive at the origin, a stem of type 0 one step up
    Grid::vertical(vec![P, stem(0, Direction::UP)], 0)
}

fn queue_of(system: &LSystem) -> Vec<[i32; 2]> {
    system.queue().iter().copied().collect()
}

#[test]
fn new_lines_up_the_stems_in_buffer_order() {
    let state = Grid::new(
        3,
        2,
        vec![stem(0, Direction::UP), P, stem(0, Direction::LEFT), E, stem(0, Direction::DOWN), E],
        [1, 0],
    );
    let system = LSystem::new(state, vec![line_rule()]);
    assert_eq!(queue_of(&system), vec![[-1, 0], [1, 0], [0, 1]]);
    assert_eq!(system.rules().len(), 1);
    assert_eq!(system.state().width(), 3);
}

#[test]
fn straight_line_growth() {
    let mut system = LSystem::new(Grid::single(stem(0, Direction::UP)), vec![line_rule()]);
    assert_eq!(queue_of(&system), vec![[0, 0]]);
    for k in 1..=12u32 {
        assert_eq!(system.try_step(), Ok(true));
        let state = system.state();
        assert_eq!(state.width(), 1);
        assert_eq!(state.height(), k + 1);
        assert_eq!(state.shift(), [0, 0]);
        for y in 0..k as i32 {
            assert_eq!(state.at([0, y]), P);
        }
        assert_eq!(state.at([0, k as i32]), stem(0, Direction::UP));
        assert_eq!(state.at([0, k as i32 + 1]), E);
        assert_eq!(queue_of(&system), vec![[0, k as i32]]);
    }
}

#[test]
fn growth_follows_the_way_the_stem_faces() {
    let mut system = LSystem::new(Grid::single(stem(0, Direction::LEFT)), vec![line_rule()]);
    for k in 1..=5u32 {
        assert_eq!(system.try_step(), Ok(true));
        let state = system.state();
        assert_eq!(state.width(), k + 1);
        assert_eq!(state.height(), 1);
        assert_eq!(state.shift(), [k, 0]);
        for x in 0..k as i32 {
            assert_eq!(state.at([-x, 0]), P);
        }
        assert_eq!(state.at([-(k as i32), 0]), stem(0, Direction::LEFT));
        assert_eq!(queue_of(&system), vec![[-(k as i32), 0]]);
    }
}

#[test]
fn an_empty_frontier_is_final() {
    let mut system = LSystem::new(Grid::single(P), vec![line_rule()]);
    assert_eq!(queue_of(&system), Vec::<[i32; 2]>::new());
    for _ in 0..3 {
        assert_eq!(system.try_step(), Ok(false));
        assert_eq!(system.state().contents(), &vec![P]);
    }
    let mut ends = LSystem::new(Grid::single(stem(0, Direction::UP)), vec![Grid::single(P)]);
    assert_eq!(ends.try_step(), Ok(true));
    assert_eq!(ends.state().contents(), &vec![P]);
    assert_eq!(ends.try_step(), Ok(false));
    assert_eq!(ends.try_step(), Ok(false));
}

#[test]
fn a_stem_that_its_rule_does_not_cover_lines_up_again() {
    // the rule leaves its own origin empty and puts a passive cell to the right
    let rule = Grid::horizontal(&[E, P], 0);
    let mut system = LSystem::new(Grid::single(stem(0, Direction::UP)), vec![rule]);
    for _ in 0..4 {
        assert_eq!(system.try_step(), Ok(true));
        assert_eq!(system.state().contents(), &vec![stem(0, Direction::UP), P]);
        assert_eq!(queue_of(&system), vec![[0, 0]]);
    }
}

#[test]
fn a_rule_with_a_stem_at_its_origin_lines_the_position_up_twice() {
    let rule = Grid::single(stem(0, Direction::UP));
    let mut system = LSystem::new(Grid::single(stem(0, Direction::UP)), vec![rule]);
    assert_eq!(system.try_step(), Ok(true));
    assert_eq!(queue_of(&system), vec![[0, 0], [0, 0]]);
}

#[test]
fn overwritten_stems_leave_the_frontier() {
    // two stems side by side; the rule of the first covers the second
    let state = Grid::horizontal(&[stem(0, Direction::UP), stem(1, Direction::UP)], 0);
    let rule0 = Grid::horizontal(&[P, P], 0);
    let rule1 = Grid::single(P);
    let mut system = LSystem::new(state, vec![rule0, rule1]);
    assert_eq!(queue_of(&system), vec![[0, 0], [1, 0]]);
    assert_eq!(system.try_step(), Ok(true));
    assert_eq!(system.state().contents(), &vec![P, P]);
    assert_eq!(queue_of(&system), Vec::<[i32; 2]>::new());
    assert_eq!(system.try_step(), Ok(false));
}

#[test]
fn branching_growth_is_first_come_first_served() {
    // rule 0: passive at the origin, a stem of type 1 to the left and to the right
    let rule0 = Grid::horizontal(&[stem(1, Direction::LEFT), P, stem(1, Direction::RIGHT)], 1);
    // rule 1: passive at the origin
    let rule1 = Grid::single(P);
    let mut system = LSystem::new(Grid::single(stem(0, Direction::UP)), vec![rule0, rule1]);
    assert_eq!(system.try_step(), Ok(true));
    assert_eq!(queue_of(&system), vec![[-1, 0], [1, 0]]);
    assert_eq!(system.state().at([-1, 0]), stem(1, Direction::LEFT));
    assert_eq!(system.try_step(), Ok(true));
    assert_eq!(queue_of(&system), vec![[1, 0]]);
    assert_eq!(system.state().at([-1, 0]), P);
    assert_eq!(system.try_step(), Ok(true));
    assert_eq!(queue_of(&system), Vec::<[i32; 2]>::new());
    assert_eq!(system.state().contents(), &vec![P, P, P]);
}

#[test]
fn invalid_ruleset_is_rejected() {
    let rules = vec![Grid::horizontal(&[P, stem(1, Direction::UP)], 0)];
    assert!(!is_valid(&rules));
    for d in [Direction::UP, Direction::LEFT, Direction::DOWN, Direction::RIGHT] {
        assert!(!is_valid(&[Grid::single(stem(1, d))]));
    }
}

#[test]
fn is_valid_accepts_exactly_the_stems_below_the_rule_count() {
    assert!(is_valid(&[]));
    assert!(is_valid(&[Grid::single(stem(0, Direction::UP))]));
    assert!(is_valid(&[Grid::single(P), Grid::single(E)]));
    assert!(is_valid(&[Grid::single(stem(1, Direction::UP)), Grid::single(stem(0, Direction::DOWN))]));
    assert!(!is_valid(&[Grid::single(stem(2, Direction::UP)), Grid::single(stem(0, Direction::DOWN))]));
    assert!(!is_valid(&[
        Grid::single(P),
        Grid::new(2, 2, vec![P, E, E, stem(255, Direction::LEFT)], [0, 0]),
    ]));
}

#[test]
fn a_stem_without_a_rule_violates_the_invariant() {
    let mut system = LSystem::new(Grid::single(stem(1, Direction::UP)), vec![line_rule()]);
    assert_eq!(system.try_step(), Err(EngineError::InvariantViolated));
    assert_eq!(system.state().contents(), &vec![stem(1, Direction::UP)]);
    assert_eq!(queue_of(&system), vec![[0, 0]]);

    // a stray stem in the state fails the step that comes to it
    let state = Grid::horizontal(&[stem(0, Direction::UP), stem(1, Direction::UP)], 0);
    let mut stray = LSystem::new(state, vec![Grid::single(P)]);
    assert_eq!(stray.try_step(), Ok(true));
    assert_eq!(stray.try_step(), Err(EngineError::InvariantViolated));
    assert_eq!(stray.try_step(), Err(EngineError::InvariantViolated));
    assert_eq!(stray.state().contents(), &vec![P, stem(1, Direction::UP)]);
    assert_eq!(queue_of(&stray), vec![[1, 0]]);
}

#[test]
fn set_state_rebuilds_the_frontier() {
    let mut system = LSystem::new(Grid::single(stem(0, Direction::UP)), vec![line_rule()]);
    assert_eq!(system.try_step(), Ok(true));
    assert_eq!(system.try_step(), Ok(true));
    system.set_state(Grid::horizontal(&[stem(0, Direction::DOWN), P, stem(0, Direction::UP)], 1));
    assert_eq!(queue_of(&system), vec![[-1, 0], [1, 0]]);
    assert_eq!(system.state().width(), 3);
    assert_eq!(system.rules().len(), 1);
    system.set_state(Grid::single(P));
    assert_eq!(queue_of(&system), Vec::<[i32; 2]>::new());
}

#[test]
fn run_stops_at_the_budget_or_when_nothing_waits() {
    let mut system = LSystem::new(Grid::single(stem(0, Direction::UP)), vec![line_rule()]);
    assert_eq!(system.run(7), Ok(7));
    assert_eq!(system.state().height(), 8);
    assert_eq!(system.run(0), Ok(0));
    assert_eq!(system.state().height(), 8);

    let mut short = LSystem::new(Grid::single(stem(0, Direction::UP)), vec![Grid::single(P)]);
    assert_eq!(short.run(10), Ok(1));
    assert_eq!(short.run(10), Ok(0));

    let state = Grid::horizontal(&[stem(0, Direction::UP), stem(1, Direction::UP)], 0);
    let mut stray = LSystem::new(state, vec![Grid::single(P)]);
    assert_eq!(stray.run(5), Err(EngineError::InvariantViolated));
    assert_eq!(stray.state().contents(), &vec![P, stem(1, Direction::UP)]);
}

#[test]
fn equal_engines_grow_alike() {
    let rule0 = Grid::new(
        3,
        2,
        vec![stem(1, Direction::LEFT), P, stem(0, Direction::RIGHT), E, stem(1, Direction::UP), E],
        [1, 0],
    );
    let rule1 = Grid::vertical(vec![P, stem(0, Direction::LEFT)], 0);
    let build = || {
        LSystem::new(
            Grid::single(stem(0, Direction::UP)),
            vec![rule0.clone(), rule1.clone()],
        )
    };
    let mut a = build();
    let mut b = build();
    let mut made = 0;
    for _ in 0..40 {
        let ra = a.try_step();
        let rb = b.try_step();
        assert_eq!(ra, rb);
        if ra == Ok(true) {
            made += 1;
        }
        assert_eq!(a.state().contents(), b.state().contents());
        assert_eq!(a.state().shift(), b.state().shift());
        assert_eq!(a.state().width(), b.state().width());
        assert_eq!(queue_of(&a), queue_of(&b));
    }
    let mut c = build();
    assert_eq!(c.run(40), Ok(made));
    assert!(made > 0);
    assert_eq!(c.state().contents(), a.state().contents());
    assert_eq!(queue_of(&c), queue_of(&a));
}
