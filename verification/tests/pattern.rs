use soft_evolution::l_system::cell::Cell;
use soft_evolution::l_system::grid::Grid;

const P: Cell = Cell::Passive;
const E: Cell = Cell::Empty;

#[test]
fn the_last_line_is_the_bottom_row() {
    let g = Grid::from_string(".#.\n###\n#..", [1, 1]).unwrap();
    assert_eq!(g.width(), 3);
    assert_eq!(g.height(), 3);
    assert_eq!(g.shift(), [1, 1]);
    assert_eq!(g.contents(), &vec![P, E, E, P, P, P, E, P, E]);
    assert_eq!(g.at([0, 1]), P);
    assert_eq!(g.at([-1, -1]), P);
    assert_eq!(g.at([1, -1]), E);
}

#[test]
fn any_character_but_a_dot_is_passive() {
    let g = Grid::from_string(". x\u{2588}", [0, 0]).unwrap();
    assert_eq!(g.contents(), &vec![E, P, P, P]);
    assert_eq!(g.height(), 1);
}

#[test]
fn line_endings_do_not_count() {
    let plain = Grid::from_string("#.\n.#", [0, 0]).unwrap();
    let closed = Grid::from_string("#.\n.#\n", [0, 0]).unwrap();
    let dos = Grid::from_string("#.\r\n.#\r\n", [0, 0]).unwrap();
    for g in [&closed, &dos] {
        assert_eq!(g.contents(), plain.contents());
        assert_eq!(g.width(), 2);
        assert_eq!(g.height(), 2);
    }
    assert_eq!(plain.contents(), &vec![E, P, P, E]);
    // a carriage return that no line feed follows is a character of the line
    let bare = Grid::from_string("#.\r", [0, 0]).unwrap();
    assert_eq!(bare.contents(), &vec![P, E, P]);
}

#[test]
fn lines_of_different_lengths_draw_no_grid() {
    assert!(Grid::from_string("##\n#", [0, 0]).is_none());
    assert!(Grid::from_string("#\n##", [0, 0]).is_none());
    assert!(Grid::from_string("##\n\n##", [0, 0]).is_none());
}

#[test]
fn no_line_draws_no_grid() {
    assert!(Grid::from_string("", [0, 0]).is_none());
    assert!(Grid::from_string("\n", [0, 0]).is_none());
    assert!(Grid::from_string("\n\n", [0, 0]).is_none());
}

#[test]
fn an_origin_outside_draws_no_grid() {
    assert!(Grid::from_string("##\n##", [2, 0]).is_none());
    assert!(Grid::from_string("##\n##", [0, 2]).is_none());
    assert!(Grid::from_string("##\n##", [1, 1]).is_some());
}
