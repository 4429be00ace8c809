use fwtype::{parse_2d_int, parse_int, parse_positive_int, parse_uint, CharSize};

#[test]
fn test_parse_int() {
    // -3 is an OK integer
    let res = parse_int("-3");
    assert!(res.is_ok());
    assert_eq!(res.unwrap(), -3);

    // 3 is an OK integer
    let res = parse_int("3");
    assert!(res.is_ok());
    assert_eq!(res.unwrap(), 3);

    // Any string is an error
    let res = parse_int("foo");
    assert!(res.is_err());
    assert_eq!(res.unwrap_err().to_string(), "foo".to_string());
}

#[test]
fn test_parse_positive_int() {
    // 3 is an OK integer
    let res = parse_positive_int("3");
    assert!(res.is_ok());
    assert_eq!(res.unwrap(), 3);

    // Any string is an error
    let res = parse_positive_int("foo");
    assert!(res.is_err());
    assert_eq!(res.unwrap_err().to_string(), "foo".to_string());

    // A zero is an error
    let res = parse_positive_int("0");
    assert!(res.is_err());
    assert_eq!(res.unwrap_err().to_string(), "0".to_string());
}

#[test]
fn test_parse_2d_int() {
    // 3 is an OK integer
    let res = parse_2d_int("8");
    assert!(res.is_ok());
    assert_eq!(
        res.unwrap(),
        CharSize {
            height: 8,
            width: 4
        }
    );

    // 12x6 is an OK integer
    let res = parse_2d_int("12x6");
    assert!(res.is_ok());
    assert_eq!(
        res.unwrap(),
        CharSize {
            height: 12,
            width: 6
        }
    );
}

#[test]
fn parse_int_accepts_plus_sign_and_limits() {
    assert_eq!(parse_int("+7").unwrap(), 7);
    assert_eq!(parse_int("0").unwrap(), 0);
    assert_eq!(parse_int("-0").unwrap(), 0);
    assert_eq!(parse_int(&isize::MAX.to_string()).unwrap(), isize::MAX);
    assert_eq!(parse_int(&isize::MIN.to_string()).unwrap(), isize::MIN);
    // one past either end overflows
    let big = "9223372036854775808";
    assert_eq!(parse_int(big).unwrap_err(), big.to_string());
    let small = "-9223372036854775809";
    assert_eq!(parse_int(small).unwrap_err(), small.to_string());
    // empty input and a bare sign are malformed
    assert_eq!(parse_int("").unwrap_err(), "".to_string());
    assert_eq!(parse_int("-").unwrap_err(), "-".to_string());
}

#[test]
fn parse_uint_rejects_signs_other_than_plus() {
    assert_eq!(parse_uint("42").unwrap(), 42);
    assert_eq!(parse_uint("+42").unwrap(), 42);
    assert_eq!(parse_uint("-42").unwrap_err(), "-42".to_string());
    assert_eq!(parse_uint("4 2").unwrap_err(), "4 2".to_string());
    assert_eq!(parse_uint(&usize::MAX.to_string()).unwrap(), usize::MAX);
    assert_eq!(
        parse_uint("18446744073709551616").unwrap_err(),
        "18446744073709551616".to_string()
    );
}

#[test]
fn parse_2d_int_reports_the_offending_piece() {
    // a malformed height is the error
    assert_eq!(parse_2d_int("ax6").unwrap_err(), "a".to_string());
    // a malformed width is the error
    assert_eq!(parse_2d_int("12x").unwrap_err(), "".to_string());
    // more than two pieces fall back to the built-in default
    assert_eq!(
        parse_2d_int("1x2x3").unwrap(),
        CharSize {
            width: 5,
            height: 10
        }
    );
}
