use soft_evolution::files::{decode_rules, encode_rules, is_alphanumeric};
use soft_evolution::l_system::cell::{Cell, Direction};
use soft_evolution::l_system::codec::DecodeError;
use soft_evolution::l_system::grid::Grid;

const P: Cell = Cell::Passive;
const E: Cell = Cell::Empty;

fn rules() -> Vec<Grid> {
    vec![
        Grid::vertical(vec![P, Cell::Stem(1, Direction::UP)], 0),
        Grid::horizontal(&[Cell::Stem(0, Direction::LEFT), P, E], 2),
        Grid::single(E),
    ]
}

#[test]
fn names_of_letters_and_digits_are_alphanumeric() {
    assert!(is_alphanumeric(""));
    assert!(is_alphanumeric("a"));
    assert!(is_alphanumeric("Cross7"));
    assert!(is_alphanumeric("0123456789"));
    assert!(is_alphanumeric("abcdefghijklmnopqrstuvwxyzABCDEFGHIJKLMNOPQRSTUVWXYZ"));
}

#[test]
fn any_other_character_spoils_a_name() {
    assert!(!is_alphanumeric(" "));
    assert!(!is_alphanumeric("a b"));
    assert!(!is_alphanumeric("cross-circle"));
    assert!(!is_alphanumeric("save.gls"));
    assert!(!is_alphanumeric("../x"));
    assert!(!is_alphanumeric("na\u{ef}ve"));
    assert!(!is_alphanumeric("\u{663}"));
    assert!(!is_alphanumeric("a/"));
    assert!(!is_alphanumeric(":"));
    assert!(!is_alphanumeric("@"));
    assert!(!is_alphanumeric("["));
    assert!(!is_alphanumeric("`"));
    assert!(!is_alphanumeric("{"));
}

#[test]
fn a_rule_set_is_written_grid_after_grid() {
    let rules = rules();
    let mut expected = Vec::new();
    for rule in &rules {
        expected.extend(rule.serialize());
    }
    assert_eq!(encode_rules(&rules), expected);
    assert_eq!(encode_rules(&[]), Vec::<u8>::new());
    assert_eq!(
        encode_rules(&rules[2..]),
        vec![0, 0, 0, 1, 0, 0, 0, 1, 0, 0, 0, 0, 0, 0, 0, 0, 0]
    );
}

#[test]
fn a_rule_set_is_read_back_as_written() {
    let rules = rules();
    let back = match decode_rules(&encode_rules(&rules)) {
        Ok(r) => r,
        Err(_) => panic!("the rule set did not decode"),
    };
    assert_eq!(back.len(), 3);
    for (a, b) in rules.iter().zip(back.iter()) {
        assert_eq!(a.width(), b.width());
        assert_eq!(a.height(), b.height());
        assert_eq!(a.shift(), b.shift());
        assert_eq!(a.contents(), b.contents());
    }
    assert!(matches!(decode_rules(&[]), Ok(r) if r.is_empty()));
}

#[test]
fn one_bad_grid_fails_the_whole_rule_set() {
    let mut data = encode_rules(&rules());
    data.push(0);
    assert!(matches!(decode_rules(&data), Err(DecodeError::Header)));

    let mut cut = encode_rules(&rules());
    cut.pop();
    assert!(matches!(decode_rules(&cut), Err(DecodeError::CellCount)));

    let mut tagged = encode_rules(&rules());
    let last = tagged.len() - 1;
    tagged[last] = 9;
    assert!(matches!(decode_rules(&tagged), Err(DecodeError::Tag)));

    let mut shifted = encode_rules(&rules());
    shifted[11] = 1;
    assert!(matches!(decode_rules(&shifted), Err(DecodeError::Origin)));

    let mut stem = encode_rules(&rules());
    stem[last] = 2;
    assert!(matches!(decode_rules(&stem), Err(DecodeError::Stem)));
}
