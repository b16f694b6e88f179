use ray_segments::parse::{comma_split, parse_coord};

#[test]
fn parses_signed_coordinates() {
    assert_eq!(parse_coord(b"0"), Some(0));
    assert_eq!(parse_coord(b"42"), Some(42));
    assert_eq!(parse_coord(b"-17"), Some(-17));
    assert_eq!(parse_coord(b"+8"), Some(8));
    assert_eq!(parse_coord(b"007"), Some(7));
    assert_eq!(parse_coord(b"524288"), Some(524288));
    assert_eq!(parse_coord(b"-524288"), Some(-524288));
}

#[test]
fn rejects_malformed_or_out_of_bound_coordinates() {
    assert_eq!(parse_coord(b""), None);
    assert_eq!(parse_coord(b"-"), None);
    assert_eq!(parse_coord(b"+"), None);
    assert_eq!(parse_coord(b"1.5"), None);
    assert_eq!(parse_coord(b"12a"), None);
    assert_eq!(parse_coord(b" 3"), None);
    assert_eq!(parse_coord(b"--3"), None);
    assert_eq!(parse_coord(b"524289"), None);
    assert_eq!(parse_coord(b"-524289"), None);
    assert_eq!(parse_coord(b"99999999999999999999999"), None);
}

#[test]
fn splits_a_coordinate_pair() {
    assert_eq!(comma_split(b"1,2"), Some((1, 2)));
    assert_eq!(comma_split(b"-10,+20"), Some((-10, 20)));
    assert_eq!(comma_split(b"3,4,5"), Some((3, 4)));
}

#[test]
fn rejects_incomplete_pairs() {
    assert_eq!(comma_split(b"1"), None);
    assert_eq!(comma_split(b"1,"), None);
    assert_eq!(comma_split(b",2"), None);
    assert_eq!(comma_split(b""), None);
    assert_eq!(comma_split(b"1,x"), None);
    assert_eq!(comma_split(b"1,,2"), None);
}
