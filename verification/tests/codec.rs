use soft_evolution::l_system::cell::{Cell, Direction};
use soft_evolution::l_system::codec::DecodeError;
use soft_evolution::l_system::grid::Grid;

const P: Cell = Cell::Passive;
const E: Cell = Cell::Empty;

fn stem(n: u8, d: Direction) -> Cell {
    Cell::Stem(n, d)
}

fn same(a: &Grid, b: &Grid) {
    assert_eq!(a.width(), b.width());
    assert_eq!(a.height(), b.height());
    assert_eq!(a.shift(), b.shift());
    assert_eq!(a.contents(), b.contents());
}

fn err(data: &[u8]) -> DecodeError {
    match Grid::deserialize(data) {
        Ok(_) => panic!("the data decoded"),
        Err(e) => e,
    }
}

#[test]
fn serialize_writes_header_and_cells() {
    let g = Grid::single(stem(3, Direction::DOWN));
    assert_eq!(
        g.serialize(),
        vec![0, 0, 0, 1, 0, 0, 0, 1, 0, 0, 0, 0, 0, 0, 0, 0, 2, 3, 2]
    );
    let h = Grid::new(3, 2, vec![E, P, stem(255, Direction::RIGHT), P, E, stem(0, Direction::UP)], [2, 1]);
    assert_eq!(
        h.serialize(),
        vec![
            0, 0, 0, 3, 0, 0, 0, 2, 0, 0, 0, 2, 0, 0, 0, 1, //
            0, 1, 2, 255, 3, 1, 0, 2, 0, 0
        ]
    );
}

#[test]
fn serialize_writes_numbers_big_endian() {
    let g = Grid::new(258, 1, vec![E; 258], [257, 0]);
    let data = g.serialize();
    assert_eq!(&data[0..16], &[0, 0, 1, 2, 0, 0, 0, 1, 0, 0, 1, 1, 0, 0, 0, 0]);
    assert_eq!(data.len(), 16 + 258);
}

#[test]
fn deserialize_reads_what_serialize_wrote() {
    let grids = vec![
        Grid::single(E),
        Grid::single(stem(0, Direction::UP)),
        Grid::horizontal(&[P, stem(1, Direction::LEFT), E, stem(2, Direction::DOWN)], 3),
        Grid::vertical(vec![stem(200, Direction::RIGHT), P], 0),
        Grid::new(3, 2, vec![E, P, stem(255, Direction::RIGHT), P, E, stem(0, Direction::UP)], [2, 1]),
        Grid::new(300, 2, vec![P; 600], [299, 1]),
    ];
    for g in grids {
        let back = Grid::deserialize(&g.serialize());
        assert!(back.is_ok());
        same(&back.unwrap(), &g);
    }
}

#[test]
fn deserialize_fails_on_a_short_header() {
    assert_eq!(err(&[]), DecodeError::Header);
    assert_eq!(err(&[0, 0, 0, 1, 0, 0, 0, 1, 0, 0, 0, 0, 0, 0, 0]), DecodeError::Header);
}

#[test]
fn deserialize_fails_on_an_unknown_tag() {
    let data = [0, 0, 0, 1, 0, 0, 0, 1, 0, 0, 0, 0, 0, 0, 0, 0, 3];
    assert_eq!(err(&data), DecodeError::Tag);
    let bad_direction = [0, 0, 0, 1, 0, 0, 0, 1, 0, 0, 0, 0, 0, 0, 0, 0, 2, 0, 4];
    assert_eq!(err(&bad_direction), DecodeError::Tag);
}

#[test]
fn deserialize_fails_on_a_stem_cut_short() {
    let one = [0, 0, 0, 1, 0, 0, 0, 1, 0, 0, 0, 0, 0, 0, 0, 0, 2];
    assert_eq!(err(&one), DecodeError::Stem);
    let two = [0, 0, 0, 1, 0, 0, 0, 1, 0, 0, 0, 0, 0, 0, 0, 0, 2, 7];
    assert_eq!(err(&two), DecodeError::Stem);
}

#[test]
fn deserialize_fails_on_a_wrong_number_of_cells() {
    let too_few = [0, 0, 0, 2, 0, 0, 0, 1, 0, 0, 0, 0, 0, 0, 0, 0, 1];
    assert_eq!(err(&too_few), DecodeError::CellCount);
    let too_many = [0, 0, 0, 1, 0, 0, 0, 1, 0, 0, 0, 0, 0, 0, 0, 0, 1, 1];
    assert_eq!(err(&too_many), DecodeError::CellCount);
    let none = [0, 0, 0, 1, 0, 0, 0, 1, 0, 0, 0, 0, 0, 0, 0, 0];
    assert_eq!(err(&none), DecodeError::CellCount);
}

#[test]
fn deserialize_fails_on_an_origin_outside() {
    let column = [0, 0, 0, 1, 0, 0, 0, 1, 0, 0, 0, 1, 0, 0, 0, 0, 1];
    assert_eq!(err(&column), DecodeError::Origin);
    let row = [0, 0, 0, 1, 0, 0, 0, 1, 0, 0, 0, 0, 0, 0, 0, 1, 1];
    assert_eq!(err(&row), DecodeError::Origin);
    let no_cells = [0, 0, 0, 0, 0, 0, 0, 0, 0, 0, 0, 0, 0, 0, 0, 0];
    assert_eq!(err(&no_cells), DecodeError::Origin);
}

#[test]
fn deserialize_record_says_where_the_next_record_starts() {
    let a = Grid::horizontal(&[P, stem(1, Direction::LEFT)], 0);
    let b = Grid::single(E);
    let mut data = vec![9, 9];
    data.extend(a.serialize());
    data.extend(b.serialize());
    let (first, end) = match Grid::deserialize_record(&data, 2) {
        Ok(r) => r,
        Err(_) => panic!("the first record did not decode"),
    };
    same(&first, &a);
    assert_eq!(end, 2 + 16 + 4);
    let (second, last) = match Grid::deserialize_record(&data, end) {
        Ok(r) => r,
        Err(_) => panic!("the second record did not decode"),
    };
    same(&second, &b);
    assert_eq!(last, data.len());
    assert!(matches!(Grid::deserialize_record(&data, last), Err(DecodeError::Header)));
}

#[test]
fn every_error_has_a_message() {
    let errors = [
        DecodeError::Header,
        DecodeError::Tag,
        DecodeError::Stem,
        DecodeError::CellCount,
        DecodeError::Origin,
    ];
    for (i, e) in errors.iter().enumerate() {
        assert!(!e.message().is_empty());
        for f in &errors[i + 1..] {
            assert_ne!(e.message(), f.message());
        }
    }
}
