use magictile::netfmt::{parse_bool, parse_int};

#[test]
fn parses_ints() {
    assert_eq!(parse_int(" 42 "), Some(42));
    assert_eq!(parse_int("-7"), Some(-7));
    assert_eq!(parse_int("+3"), Some(3));
    assert_eq!(parse_int("2147483647"), Some(i32::MAX));
    assert_eq!(parse_int("2147483648"), None);
    assert_eq!(parse_int("-2147483648"), Some(i32::MIN));
    assert_eq!(parse_int("1.5"), None);
    assert_eq!(parse_int(""), None);
    assert_eq!(parse_int("-"), None);
}

#[test]
fn parses_bools() {
    assert_eq!(parse_bool("true"), Some(true));
    assert_eq!(parse_bool(" True\n"), Some(true));
    assert_eq!(parse_bool("1"), Some(true));
    assert_eq!(parse_bool("false"), Some(false));
    assert_eq!(parse_bool("False"), Some(false));
    assert_eq!(parse_bool("0"), Some(false));
    assert_eq!(parse_bool("TRUE"), None);
    assert_eq!(parse_bool("yes"), None);
}
