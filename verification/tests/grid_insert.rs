use soft_evolution::l_system::cell::{Cell, Direction};
use soft_evolution::l_system::grid::Grid;

const P: Cell = Cell::Passive;
const E: Cell = Cell::Empty;

fn stem(n: u8, d: Direction) -> Cell {
    Cell::Stem(n, d)
}

fn holds_invariants(g: &Grid) {
    assert_eq!(g.width() as usize * g.height() as usize, g.contents().len());
    assert!(g.shift()[0] < g.width());
    assert!(g.shift()[1] < g.height());
}

#[test]
fn insert_cell_inside_overwrites_one_cell() {
    let mut g = Grid::new(2, 2, vec![P, E, E, P], [0, 0]);
    g.insert_cell(stem(1, Direction::LEFT), [1, 0]);
    assert_eq!(g.contents(), &vec![P, stem(1, Direction::LEFT), E, P]);
    assert_eq!(g.shift(), [0, 0]);
    g.insert_cell(E, [0, 0]);
    assert_eq!(g.contents(), &vec![E, stem(1, Direction::LEFT), E, P]);
    holds_invariants(&g);
}

#[test]
fn insert_cell_of_empty_outside_changes_nothing() {
    let mut g = Grid::single(P);
    assert!(g.can_insert_cell(E, [5, 5]));
    g.insert_cell(E, [5, 5]);
    assert_eq!(g.width(), 1);
    assert_eq!(g.height(), 1);
    assert_eq!(g.contents(), &vec![P]);
    assert!(g.can_insert_cell(E, [i32::MIN, i32::MAX]));
    g.insert_cell(E, [i32::MIN, i32::MAX]);
    assert_eq!(g.contents(), &vec![P]);
}

#[test]
fn insert_cell_outside_grows_on_every_side_at_once() {
    let mut g = Grid::single(P);
    g.insert_cell(stem(1, Direction::UP), [2, -1]);
    assert_eq!(g.width(), 3);
    assert_eq!(g.height(), 2);
    assert_eq!(g.shift(), [0, 1]);
    assert_eq!(g.contents(), &vec![E, E, stem(1, Direction::UP), P, E, E]);
    holds_invariants(&g);

    g.insert_cell(P, [-2, 2]);
    assert_eq!(g.width(), 5);
    assert_eq!(g.height(), 4);
    assert_eq!(g.shift(), [2, 1]);
    assert_eq!(g.at([-2, 2]), P);
    assert_eq!(g.at([2, -1]), stem(1, Direction::UP));
    assert_eq!(g.at([0, 0]), P);
    let filled = g.contents().iter().filter(|c| **c != E).count();
    assert_eq!(filled, 3);
    holds_invariants(&g);
}

#[test]
fn insert_cell_leaves_every_other_cell_as_it_was() {
    let mut g = Grid::new(3, 3, vec![P, E, P, E, stem(0, Direction::UP), E, P, E, P], [1, 1]);
    let before = g.clone();
    g.insert_cell(P, [3, -2]);
    assert_eq!(g.at([3, -2]), P);
    for y in -4..=4 {
        for x in -4..=4 {
            if [x, y] != [3, -2] {
                assert_eq!(g.at([x, y]), before.at([x, y]));
            }
        }
    }
    holds_invariants(&g);
}

#[test]
fn can_insert_cell_refuses_what_positions_cannot_name() {
    let g = Grid::single(P);
    assert!(g.can_insert_cell(P, [3, -3]));
    assert!(!g.can_insert_cell(P, [i32::MIN, 0]));
    assert!(!g.can_insert_cell(P, [0, i32::MIN]));
}

#[test]
fn insert_stamps_an_upright_pattern() {
    let mut g = Grid::single(stem(0, Direction::UP));
    let rule = Grid::vertical(vec![P, stem(0, Direction::UP)], 0);
    g.insert(&rule, [0, 0], Direction::UP);
    assert_eq!(g.width(), 1);
    assert_eq!(g.height(), 2);
    assert_eq!(g.shift(), [0, 0]);
    assert_eq!(g.contents(), &vec![P, stem(0, Direction::UP)]);
}

#[test]
fn insert_turns_the_pattern_and_its_stems() {
    let other = Grid::horizontal(&[P, stem(0, Direction::UP)], 0);

    let mut left = Grid::single(E);
    left.insert(&other, [0, 0], Direction::LEFT);
    assert_eq!(left.width(), 1);
    assert_eq!(left.height(), 2);
    assert_eq!(left.shift(), [0, 0]);
    assert_eq!(left.contents(), &vec![P, stem(0, Direction::LEFT)]);

    let mut down = Grid::single(E);
    down.insert(&other, [0, 0], Direction::DOWN);
    assert_eq!(down.width(), 2);
    assert_eq!(down.height(), 1);
    assert_eq!(down.shift(), [1, 0]);
    assert_eq!(down.contents(), &vec![stem(0, Direction::DOWN), P]);

    let mut right = Grid::single(E);
    right.insert(&other, [0, 0], Direction::RIGHT);
    assert_eq!(right.width(), 1);
    assert_eq!(right.height(), 2);
    assert_eq!(right.shift(), [0, 1]);
    assert_eq!(right.contents(), &vec![stem(0, Direction::RIGHT), P]);
}

#[test]
fn insert_keeps_what_empty_cells_of_the_pattern_cover() {
    let mut g = Grid::new(2, 1, vec![P, P], [0, 0]);
    let other = Grid::horizontal(&[E, stem(3, Direction::DOWN)], 0);
    g.insert(&other, [0, 0], Direction::UP);
    assert_eq!(g.contents(), &vec![P, stem(3, Direction::DOWN)]);
}

#[test]
fn insert_grows_to_the_whole_turned_rectangle_even_where_it_is_empty() {
    let mut g = Grid::single(P);
    let other = Grid::new(3, 1, vec![E, E, E], [0, 0]);
    g.insert(&other, [1, 2], Direction::LEFT);
    // turned by a quarter turn the row stands up from (1, 2) to (1, 4)
    assert_eq!(g.width(), 2);
    assert_eq!(g.height(), 5);
    assert_eq!(g.shift(), [0, 0]);
    assert_eq!(g.at([0, 0]), P);
    let filled = g.contents().iter().filter(|c| **c != E).count();
    assert_eq!(filled, 1);
    holds_invariants(&g);
}

#[test]
fn insert_at_an_offset_shifts_after_turning() {
    let mut g = Grid::single(E);
    let other = Grid::new(2, 2, vec![P, stem(1, Direction::LEFT), E, stem(2, Direction::UP)], [0, 0]);
    g.insert(&other, [-3, 4], Direction::DOWN);
    // local (0,0) -> (-3,4); (1,0) -> (-4,4); (1,1) -> (-4,3)
    assert_eq!(g.at([-3, 4]), P);
    assert_eq!(g.at([-4, 4]), stem(1, Direction::RIGHT));
    assert_eq!(g.at([-4, 3]), stem(2, Direction::DOWN));
    assert_eq!(g.at([-3, 3]), E);
    assert_eq!(g.shift(), [4, 0]);
    assert_eq!(g.width(), 5);
    assert_eq!(g.height(), 5);
    holds_invariants(&g);
}

#[test]
fn invariants_hold_after_a_sequence_of_writes() {
    let mut g = Grid::single(E);
    let pattern = Grid::new(2, 3, vec![P, E, stem(0, Direction::UP), P, E, P], [1, 1]);
    let positions: [[i32; 2]; 6] = [[3, 1], [-2, -5], [0, 0], [7, -1], [-4, 6], [1, 1]];
    let directions = [Direction::UP, Direction::LEFT, Direction::DOWN, Direction::RIGHT];
    for (k, pos) in positions.iter().enumerate() {
        assert!(g.can_insert(&pattern, *pos, directions[k % 4]));
        g.insert(&pattern, *pos, directions[k % 4]);
        holds_invariants(&g);
        assert!(g.can_insert_cell(P, [pos[1], pos[0]]));
        g.insert_cell(P, [pos[1], pos[0]]);
        holds_invariants(&g);
        assert_eq!(g.at([pos[1], pos[0]]), P);
    }
}

#[test]
fn can_insert_refuses_what_positions_cannot_name() {
    let g = Grid::single(P);
    let other = Grid::horizontal(&[P, P], 0);
    assert!(g.can_insert(&other, [10, 10], Direction::UP));
    assert!(!g.can_insert(&other, [i32::MAX, 0], Direction::UP));
    assert!(g.can_insert(&other, [i32::MAX - 5, 0], Direction::DOWN));
    assert!(!g.can_insert(&other, [0, i32::MIN + 1], Direction::RIGHT));
}

#[test]
fn rotate_turns_a_grid_about_its_origin() {
    let mut g = Grid::horizontal(&[P, stem(0, Direction::UP)], 0);
    g.rotate(Direction::LEFT);
    assert_eq!(g.width(), 1);
    assert_eq!(g.height(), 2);
    assert_eq!(g.shift(), [0, 0]);
    assert_eq!(g.contents(), &vec![P, stem(0, Direction::LEFT)]);
    g.rotate(Direction::LEFT);
    assert_eq!(g.contents(), &vec![stem(0, Direction::DOWN), P]);
    assert_eq!(g.shift(), [1, 0]);
    g.rotate(Direction::DOWN);
    assert_eq!(g.contents(), &vec![P, stem(0, Direction::UP)]);
    assert_eq!(g.shift(), [0, 0]);
    assert_eq!(g.width(), 2);
}

#[test]
fn rotate_by_up_changes_nothing() {
    let mut g = Grid::new(2, 2, vec![P, E, stem(1, Direction::RIGHT), P], [1, 0]);
    g.rotate(Direction::UP);
    assert_eq!(g.contents(), &vec![P, E, stem(1, Direction::RIGHT), P]);
    assert_eq!(g.shift(), [1, 0]);
}
