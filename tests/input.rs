use battleship::input::parse_input;

#[test]
fn parses_letter_and_column() {
    assert_eq!(parse_input("A 1"), Some((0, 1)));
    assert_eq!(parse_input("a 1"), Some((0, 1)));
    assert_eq!(parse_input("a  1"), Some((0, 1)));
    assert_eq!(parse_input("J 9"), Some((9, 9)));
    assert_eq!(parse_input("c 0"), Some((2, 0)));
}

#[test]
fn rejects_bad_shots() {
    assert_eq!(parse_input("K 1"), None);
    assert_eq!(parse_input("A 10"), None);
    assert_eq!(parse_input("A -1"), None);
    assert_eq!(parse_input("A"), None);
    assert_eq!(parse_input(""), None);
    assert_eq!(parse_input("AB 1"), None);
    assert_eq!(parse_input("A x"), None);
    assert_eq!(parse_input("A +"), None);
    assert_eq!(parse_input("1 A"), None);
}

#[test]
fn accepts_surrounding_space_and_extra_words() {
    assert_eq!(parse_input("  b\t3\n"), Some((1, 3)));
    assert_eq!(parse_input("D 4 extra"), Some((3, 4)));
    assert_eq!(parse_input("e\u{a0}5"), Some((4, 5)));
}

#[test]
fn column_number_forms() {
    assert_eq!(parse_input("A 01"), Some((0, 1)));
    assert_eq!(parse_input("A +7"), Some((0, 7)));
    assert_eq!(parse_input("A 0000000000000000000000008"), Some((0, 8)));
    assert_eq!(parse_input("A 99999999999999999999999"), None);
}
