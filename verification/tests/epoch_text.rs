use melt::epoch::parse_epoch;
use melt::epoch::ParseError;

#[test]
fn named_epochs_exact_values() {
    // twitter: 2010-11-04T01:42:54.657Z, discord: 2015-01-01T00:00:00Z.
    assert_eq!(parse_epoch("twitter"), Ok(1288834974657));
    assert_eq!(parse_epoch("discord"), Ok(1420070400000));
}

#[test]
fn plain_seconds() {
    assert_eq!(parse_epoch("0"), Ok(0));
    assert_eq!(parse_epoch("123"), Ok(123000));
    assert_eq!(parse_epoch("1420070400"), Ok(1420070400000));
    assert_eq!(parse_epoch("-1"), Ok(-1000));
    assert_eq!(parse_epoch("007"), Ok(7000));
}

#[test]
fn fractional_seconds() {
    assert_eq!(parse_epoch("1.5"), Ok(1500));
    assert_eq!(parse_epoch("1.25"), Ok(1250));
    assert_eq!(parse_epoch("1.257"), Ok(1257));
    // Digits past the third are finer than a millisecond.
    assert_eq!(parse_epoch("1.2579"), Ok(1257));
    assert_eq!(parse_epoch("-1.5"), Ok(-1500));
    assert_eq!(parse_epoch("0.001"), Ok(1));
    assert_eq!(parse_epoch("1288834974.657"), Ok(1288834974657));
}

#[test]
fn malformed_epochs_are_rejected() {
    assert_eq!(parse_epoch(""), Err(ParseError));
    assert_eq!(parse_epoch("-"), Err(ParseError));
    assert_eq!(parse_epoch("."), Err(ParseError));
    assert_eq!(parse_epoch(".5"), Err(ParseError));
    assert_eq!(parse_epoch("1."), Err(ParseError));
    assert_eq!(parse_epoch("1..2"), Err(ParseError));
    assert_eq!(parse_epoch("1.2.3"), Err(ParseError));
    assert_eq!(parse_epoch("abc"), Err(ParseError));
    assert_eq!(parse_epoch("12a"), Err(ParseError));
    assert_eq!(parse_epoch("1 "), Err(ParseError));
    assert_eq!(parse_epoch(" 1"), Err(ParseError));
    assert_eq!(parse_epoch("+1"), Err(ParseError));
    assert_eq!(parse_epoch("twitter "), Err(ParseError));
}

#[test]
fn out_of_range_epochs_are_rejected() {
    // Just over what signed 64-bit milliseconds can carry.
    assert_eq!(parse_epoch("9223372036854775.808"), Err(ParseError));
    assert_eq!(parse_epoch("9223372036854775.807"), Ok(i64::MAX));
    assert_eq!(parse_epoch("-9223372036854775.808"), Ok(i64::MIN));
    assert_eq!(parse_epoch("-9223372036854775.809"), Err(ParseError));
    assert_eq!(parse_epoch("99999999999999999999999999999"), Err(ParseError));
}
