use rand::SeedableRng;
use soft_evolution::l_system::cell::{Cell, CellKind, Direction};

const DIRECTIONS: [Direction; 4] =
    [Direction::UP, Direction::LEFT, Direction::DOWN, Direction::RIGHT];

#[test]
fn rotate_dir_composes_quarter_turns() {
    assert_eq!(Direction::UP.rotate_dir(Direction::RIGHT), Direction::RIGHT);
    assert_eq!(Direction::LEFT.rotate_dir(Direction::UP), Direction::LEFT);
    assert_eq!(Direction::LEFT.rotate_dir(Direction::LEFT), Direction::DOWN);
    assert_eq!(Direction::LEFT.rotate_dir(Direction::RIGHT), Direction::UP);
    assert_eq!(Direction::DOWN.rotate_dir(Direction::DOWN), Direction::UP);
    assert_eq!(Direction::DOWN.rotate_dir(Direction::LEFT), Direction::RIGHT);
    assert_eq!(Direction::RIGHT.rotate_dir(Direction::RIGHT), Direction::DOWN);
    assert_eq!(Direction::RIGHT.rotate_dir(Direction::LEFT), Direction::UP);
}

#[test]
fn rotations_form_a_cyclic_group() {
    for a in DIRECTIONS {
        assert_eq!(Direction::UP.rotate_dir(a), a);
        assert_eq!(a.rotate_dir(Direction::UP), a);
        for b in DIRECTIONS {
            assert_eq!(a.rotate_dir(b), b.rotate_dir(a));
            for c in DIRECTIONS {
                assert_eq!(a.rotate_dir(b.rotate_dir(c)), a.rotate_dir(b).rotate_dir(c));
            }
        }
        let four = a.rotate_dir(a).rotate_dir(a).rotate_dir(a);
        assert_eq!(four, Direction::UP);
    }
}

#[test]
fn rotate_coords_turns_counter_clockwise() {
    assert_eq!(Direction::UP.rotate_coords([3, 1]), [3, 1]);
    assert_eq!(Direction::LEFT.rotate_coords([3, 1]), [-1, 3]);
    assert_eq!(Direction::DOWN.rotate_coords([3, 1]), [-3, -1]);
    assert_eq!(Direction::RIGHT.rotate_coords([3, 1]), [1, -3]);
}

#[test]
fn rotate_coords_composes_like_rotate_dir() {
    for a in DIRECTIONS {
        for b in DIRECTIONS {
            let one_by_one = a.rotate_coords(b.rotate_coords([2, -5]));
            let at_once = a.rotate_dir(b).rotate_coords([2, -5]);
            assert_eq!(one_by_one, at_once);
        }
    }
}

#[test]
fn rotate_vals_moves_the_four_sides() {
    assert_eq!(Direction::UP.rotate_vals(1, 2, 3, 4), [1, 2, 3, 4]);
    assert_eq!(Direction::LEFT.rotate_vals(1, 2, 3, 4), [4, 1, 2, 3]);
    assert_eq!(Direction::DOWN.rotate_vals(1, 2, 3, 4), [3, 4, 1, 2]);
    assert_eq!(Direction::RIGHT.rotate_vals(1, 2, 3, 4), [2, 3, 4, 1]);
}

#[test]
fn rotate_cell_turns_stems_only() {
    assert_eq!(
        Direction::LEFT.rotate_cell(Cell::Stem(7, Direction::UP)),
        Cell::Stem(7, Direction::LEFT)
    );
    assert_eq!(
        Direction::DOWN.rotate_cell(Cell::Stem(2, Direction::LEFT)),
        Cell::Stem(2, Direction::RIGHT)
    );
    assert_eq!(Direction::RIGHT.rotate_cell(Cell::Passive), Cell::Passive);
    assert_eq!(Direction::RIGHT.rotate_cell(Cell::Empty), Cell::Empty);
}

#[test]
fn same_type_ignores_what_a_stem_carries() {
    let stem = Cell::Stem(0, Direction::UP);
    let other_stem = Cell::Stem(9, Direction::DOWN);
    assert!(stem.same_type(&other_stem));
    assert!(Cell::Passive.same_type(&Cell::Passive));
    assert!(Cell::Empty.same_type(&Cell::Empty));
    assert!(!stem.same_type(&Cell::Passive));
    assert!(!stem.same_type(&Cell::Empty));
    assert!(!Cell::Passive.same_type(&Cell::Empty));
    assert!(!Cell::Empty.same_type(&stem));
}

#[test]
fn direction_bytes_are_quarter_turns() {
    assert_eq!(Direction::UP.to_byte(), 0);
    assert_eq!(Direction::LEFT.to_byte(), 1);
    assert_eq!(Direction::DOWN.to_byte(), 2);
    assert_eq!(Direction::RIGHT.to_byte(), 3);
    for d in DIRECTIONS {
        assert_eq!(Direction::from_byte(d.to_byte()), Some(d));
    }
    assert_eq!(Direction::from_byte(4), None);
    assert_eq!(Direction::from_byte(255), None);
}

#[test]
fn direction_from_index_saturates_at_right() {
    assert_eq!(Direction::from_index(0), Direction::UP);
    assert_eq!(Direction::from_index(1), Direction::LEFT);
    assert_eq!(Direction::from_index(2), Direction::DOWN);
    assert_eq!(Direction::from_index(3), Direction::RIGHT);
    assert_eq!(Direction::from_index(17), Direction::RIGHT);
}

#[test]
fn direction_symbols() {
    assert_eq!(Direction::UP.symbol(), '^');
    assert_eq!(Direction::LEFT.symbol(), '<');
    assert_eq!(Direction::DOWN.symbol(), 'v');
    assert_eq!(Direction::RIGHT.symbol(), '>');
}

#[test]
fn the_kind_of_a_cell_follows_the_eight_way_draw() {
    assert_eq!(CellKind::for_draw(0), CellKind::Stem);
    assert_eq!(CellKind::for_draw(1), CellKind::Passive);
    assert_eq!(CellKind::for_draw(2), CellKind::Passive);
    assert_eq!(CellKind::for_draw(3), CellKind::Passive);
    assert_eq!(CellKind::for_draw(4), CellKind::Passive);
    assert_eq!(CellKind::for_draw(5), CellKind::Empty);
    assert_eq!(CellKind::for_draw(6), CellKind::Empty);
    assert_eq!(CellKind::for_draw(7), CellKind::Empty);
}

#[test]
fn random_cells_keep_their_stems_below_the_bound() {
    let mut rng = rand::rngs::StdRng::seed_from_u64(11);
    let mut stems = 0;
    let mut passive = 0;
    let mut empty = 0;
    for _ in 0..4000 {
        match Cell::random(&mut rng, 3) {
            Cell::Stem(n, _) => {
                assert!(n < 3);
                stems += 1;
            }
            Cell::Passive => passive += 1,
            Cell::Empty => empty += 1,
        }
    }
    assert!(stems > 0);
    assert!(passive > empty);
    assert!(empty > stems);
}

#[test]
fn random_cells_with_one_stem_type_are_of_type_zero() {
    let mut rng = rand::rngs::StdRng::seed_from_u64(5);
    for _ in 0..500 {
        if let Cell::Stem(n, _) = Cell::random(&mut rng, 1) {
            assert_eq!(n, 0);
        }
    }
}

#[test]
fn random_directions_cover_all_four() {
    let mut rng = rand::rngs::StdRng::seed_from_u64(3);
    let mut seen = [false; 4];
    for _ in 0..200 {
        seen[Direction::random(&mut rng).to_byte() as usize] = true;
    }
    assert_eq!(seen, [true; 4]);
}
