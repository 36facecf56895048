use soft_evolution::l_system::cell::{Cell, Direction};
use soft_evolution::l_system::grid::Grid;

const S: Cell = Cell::Stem(0, Direction::UP);
const P: Cell = Cell::Passive;
const E: Cell = Cell::Empty;

fn numbered() -> Grid {
    // 3 columns, 3 rows, origin in the middle
    Grid::new(3, 3, vec![P, E, S, E, P, E, S, S, P], [1, 1])
}

#[test]
fn contract_removes_the_row_or_column_on_the_side() {
    let mut up = numbered();
    assert!(up.contract(Direction::UP));
    assert_eq!((up.width(), up.height(), up.shift()), (3, 2, [1, 1]));
    assert_eq!(up.contents(), &vec![P, E, S, E, P, E]);

    let mut down = numbered();
    assert!(down.contract(Direction::DOWN));
    assert_eq!((down.width(), down.height(), down.shift()), (3, 2, [1, 0]));
    assert_eq!(down.contents(), &vec![E, P, E, S, S, P]);

    let mut left = numbered();
    assert!(left.contract(Direction::LEFT));
    assert_eq!((left.width(), left.height(), left.shift()), (2, 3, [0, 1]));
    assert_eq!(left.contents(), &vec![E, S, P, E, S, P]);

    let mut right = numbered();
    assert!(right.contract(Direction::RIGHT));
    assert_eq!((right.width(), right.height(), right.shift()), (2, 3, [1, 1]));
    assert_eq!(right.contents(), &vec![P, E, E, P, S, S]);
}

#[test]
fn contract_refuses_to_remove_the_origin() {
    let mut g = Grid::new(2, 2, vec![P, E, E, P], [0, 0]);
    assert!(!g.contract(Direction::LEFT));
    assert!(!g.contract(Direction::DOWN));
    assert_eq!(g.contents(), &vec![P, E, E, P]);
    assert!(g.contract(Direction::RIGHT));
    assert!(!g.contract(Direction::RIGHT));
    assert!(g.contract(Direction::UP));
    assert!(!g.contract(Direction::UP));
    assert_eq!((g.width(), g.height()), (1, 1));
    assert_eq!(g.contents(), &vec![P]);
}

#[test]
fn contract_refuses_on_a_single_cell() {
    let mut g = Grid::single(E);
    for d in [Direction::UP, Direction::LEFT, Direction::DOWN, Direction::RIGHT] {
        assert!(!g.contract(d));
    }
    assert_eq!(g.contents(), &vec![E]);
}

#[test]
fn try_contract_empty_takes_one_layer_from_each_empty_side() {
    let mut g = Grid::new(
        5,
        5,
        vec![
            E, E, E, E, E, //
            E, E, E, E, E, //
            E, E, P, E, E, //
            E, E, E, E, E, //
            E, E, E, E, E,
        ],
        [2, 2],
    );
    assert!(g.try_contract_empty());
    assert_eq!((g.width(), g.height(), g.shift()), (3, 3, [1, 1]));
    assert!(g.try_contract_empty());
    assert_eq!((g.width(), g.height(), g.shift()), (1, 1, [0, 0]));
    assert_eq!(g.contents(), &vec![P]);
    assert!(!g.try_contract_empty());
    assert_eq!(g.contents(), &vec![P]);
}

#[test]
fn try_contract_empty_contracts_every_empty_side_in_one_round() {
    let mut g = Grid::new(2, 2, vec![P, E, E, E], [0, 0]);
    assert!(g.try_contract_empty());
    assert_eq!((g.width(), g.height()), (1, 1));
    let mut h = Grid::new(2, 2, vec![P, E, E, P], [0, 0]);
    assert!(!h.try_contract_empty());
    assert_eq!((h.width(), h.height()), (2, 2));
    let mut k = Grid::new(2, 3, vec![P, E, E, P, E, E], [0, 0]);
    assert!(k.try_contract_empty());
    assert_eq!((k.width(), k.height()), (2, 2));
    assert_eq!(k.contents(), &vec![P, E, E, P]);
}

#[test]
fn contract_empty_trims_to_the_filled_cells_and_the_origin() {
    let mut centred = Grid::new(3, 3, vec![E, E, E, E, P, E, E, E, E], [1, 1]);
    centred.contract_empty();
    assert_eq!((centred.width(), centred.height(), centred.shift()), (1, 1, [0, 0]));
    assert_eq!(centred.contents(), &vec![P]);

    let mut cornered = Grid::new(3, 3, vec![E, E, E, E, P, E, E, E, E], [0, 0]);
    cornered.contract_empty();
    assert_eq!((cornered.width(), cornered.height(), cornered.shift()), (2, 2, [0, 0]));
    assert_eq!(cornered.contents(), &vec![E, E, E, P]);

    let mut all_empty = Grid::new(4, 3, vec![E; 12], [3, 1]);
    all_empty.contract_empty();
    assert_eq!((all_empty.width(), all_empty.height(), all_empty.shift()), (1, 1, [0, 0]));
    assert_eq!(all_empty.contents(), &vec![E]);
}

#[test]
fn contract_empty_keeps_every_filled_cell_where_it_is() {
    let mut g = Grid::new(
        4,
        4,
        vec![
            E, E, E, E, //
            E, S, E, E, //
            E, E, P, E, //
            E, E, E, E,
        ],
        [3, 0],
    );
    let before = g.clone();
    g.contract_empty();
    for y in -5..=5 {
        for x in -5..=5 {
            assert_eq!(g.at([x, y]), before.at([x, y]));
        }
    }
    assert_eq!((g.width(), g.height(), g.shift()), (3, 3, [2, 0]));
}

#[test]
fn contract_empty_twice_is_contract_empty_once() {
    let grids = vec![
        Grid::new(3, 3, vec![E, E, E, E, P, E, E, E, E], [1, 1]),
        Grid::new(3, 3, vec![E, E, E, E, P, E, E, E, E], [2, 2]),
        Grid::new(4, 2, vec![E, S, E, E, E, E, E, E], [0, 1]),
        Grid::new(2, 2, vec![P, P, P, P], [1, 1]),
        Grid::single(E),
    ];
    for mut g in grids {
        g.contract_empty();
        let once = g.clone();
        g.contract_empty();
        assert_eq!(g.contents(), once.contents());
        assert_eq!(g.width(), once.width());
        assert_eq!(g.height(), once.height());
        assert_eq!(g.shift(), once.shift());
        assert!(!g.try_contract_empty());
    }
}
