use go_parse_duration::{parse_duration, Error};

fn failure(message: &str) -> Error {
    Error::ParseError(String::from(message))
}

#[test]
fn test_parse_duration() -> Result<(), Error> {
    assert_eq!(parse_duration("50ns")?, 50);
    assert_eq!(parse_duration("3ms")?, 3000000);
    assert_eq!(parse_duration("2us")?, 2000);
    assert_eq!(parse_duration("4s")?, 4000000000);
    assert_eq!(parse_duration("1h45m")?, 6300000000000);
    assert_eq!(
        parse_duration("1").unwrap_err(),
        Error::ParseError(String::from("missing unit in duration: 1")),
    );
    assert_eq!(parse_duration("-1h45m")?, -6300000000000);
    assert_eq!(parse_duration("+1h45m")?, 6300000000000);
    assert_eq!(
        parse_duration("a1ns").unwrap_err(),
        Error::ParseError(String::from("invalid duration: a1ns"))
    );
    assert_eq!(
        parse_duration("++50ns").unwrap_err(),
        Error::ParseError(String::from("invalid duration: ++50ns"))
    );
    assert_eq!(
        parse_duration("+").unwrap_err(),
        Error::ParseError(String::from("invalid duration: +"))
    );
    Ok(())
}

#[test]
fn zero_needs_no_unit() {
    assert_eq!(parse_duration("0"), Ok(0));
    assert_eq!(parse_duration("-0"), Ok(0));
    assert_eq!(parse_duration("+0"), Ok(0));
    assert_eq!(parse_duration("00"), Err(failure("missing unit in duration: 00")));
}

#[test]
fn every_unit() {
    assert_eq!(parse_duration("7ns"), Ok(7));
    assert_eq!(parse_duration("7us"), Ok(7_000));
    assert_eq!(parse_duration("2\u{b5}s"), Ok(2_000));
    assert_eq!(parse_duration("2\u{3bc}s"), Ok(2_000));
    assert_eq!(parse_duration("7ms"), Ok(7_000_000));
    assert_eq!(parse_duration("7s"), Ok(7_000_000_000));
    assert_eq!(parse_duration("7m"), Ok(420_000_000_000));
    assert_eq!(parse_duration("7h"), Ok(25_200_000_000_000));
}

#[test]
fn several_terms() {
    assert_eq!(parse_duration("2h45m"), Ok(9_900_000_000_000));
    assert_eq!(parse_duration("1m1s1ms1us1ns"), Ok(61_001_001_001));
    assert_eq!(parse_duration("300ms"), Ok(300_000_000));
}

#[test]
fn fractions() {
    assert_eq!(parse_duration("1.5h"), Ok(5_400_000_000_000));
    assert_eq!(parse_duration("-1.5h"), Ok(-5_400_000_000_000));
    assert_eq!(parse_duration(".5s"), Ok(500_000_000));
    assert_eq!(parse_duration("1.s"), Ok(1_000_000_000));
    assert_eq!(parse_duration("1.9ns"), Ok(1));
    assert_eq!(parse_duration("1.000000000000000000001h"), Ok(3_600_000_000_000));
}

#[test]
fn long_fraction_keeps_what_fits() {
    assert_eq!(parse_duration("0.1234567890123456789012h"), Ok(444_444_440_444));
}

#[test]
fn no_digits() {
    assert_eq!(parse_duration(".s"), Err(failure("invalid duration: .s")));
    assert_eq!(parse_duration("-.s"), Err(failure("invalid duration: -.s")));
    assert_eq!(parse_duration(""), Err(failure("invalid duration: ")));
    assert_eq!(parse_duration("-"), Err(failure("invalid duration: -")));
    assert_eq!(parse_duration("1h 2m"), Err(failure("unknown unit h  in duration 1h 2m")));
}

#[test]
fn unknown_units() {
    assert_eq!(parse_duration("1d"), Err(failure("unknown unit d in duration 1d")));
    assert_eq!(parse_duration("1h-2m"), Err(failure("unknown unit h- in duration 1h-2m")));
    assert_eq!(parse_duration("3NS"), Err(failure("unknown unit NS in duration 3NS")));
}

#[test]
fn missing_units() {
    assert_eq!(parse_duration("1h30"), Err(failure("missing unit in duration: 1h30")));
    assert_eq!(parse_duration("1.5"), Err(failure("missing unit in duration: 1.5")));
}

#[test]
fn largest_counts() {
    assert_eq!(parse_duration("9223372036854775807ns"), Ok(i64::MAX));
    assert_eq!(parse_duration("-9223372036854775807ns"), Ok(-i64::MAX));
    assert_eq!(parse_duration("2562047h"), Ok(9_223_369_200_000_000_000));
    assert_eq!(parse_duration("9223372036854775807.9ns"), Ok(i64::MAX));
}

#[test]
fn number_too_long() {
    assert_eq!(
        parse_duration("9223372036854775808ns"),
        Err(failure("invalid character in: 9223372036854775808ns"))
    );
}

#[test]
fn overflow_never_wraps() {
    assert_eq!(parse_duration("2562048h"), Err(failure("invalid duration 2562048h")));
    assert_eq!(parse_duration("-2562048h"), Err(failure("invalid duration -2562048h")));
    assert_eq!(parse_duration("9223372036854775807us"), Err(failure("invalid duration 9223372036854775807us")));
    assert_eq!(parse_duration("2562047.8h"), Err(failure("invalid duration 2562047.8h")));
    assert_eq!(parse_duration("2562047h1h"), Err(failure("invalid duration 2562047h1h")));
}

#[test]
fn same_literal_same_result() {
    for s in ["1h45m", "1.5h", "++50ns", "2562048h", "1x"] {
        assert_eq!(parse_duration(s), parse_duration(s));
    }
}

#[test]
fn error_message_line() {
    let e = parse_duration("+").unwrap_err();
    assert_eq!(e.to_message(), String::from("Parse error: invalid duration: +"));
}
