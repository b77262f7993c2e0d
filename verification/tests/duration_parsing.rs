use lyric_sync::duration::{parse_duration, ParseError};

#[test]
fn valid_durations_give_exact_seconds() {
    assert_eq!(parse_duration("3:45"), Ok(225));
    assert_eq!(parse_duration("0:00"), Ok(0));
    assert_eq!(parse_duration("10:05"), Ok(605));
}

#[test]
fn seconds_field_above_fifty_nine_is_accepted() {
    assert_eq!(parse_duration("1:75"), Ok(135));
}

#[test]
fn zero_padded_fields_parse() {
    assert_eq!(parse_duration("00:07"), Ok(7));
    assert_eq!(parse_duration("007:001"), Ok(421));
}

#[test]
fn wrong_field_count_is_invalid_format() {
    assert_eq!(parse_duration("abc"), Err(ParseError::InvalidFormat));
    assert_eq!(parse_duration("1:2:3"), Err(ParseError::InvalidFormat));
    assert_eq!(parse_duration(""), Err(ParseError::InvalidFormat));
    assert_eq!(parse_duration("1"), Err(ParseError::InvalidFormat));
}

#[test]
fn non_numeric_or_empty_fields_are_invalid_numbers() {
    assert_eq!(parse_duration("a:5"), Err(ParseError::InvalidNumber));
    assert_eq!(parse_duration("5:b"), Err(ParseError::InvalidNumber));
    assert_eq!(parse_duration(":5"), Err(ParseError::InvalidNumber));
    assert_eq!(parse_duration("5:"), Err(ParseError::InvalidNumber));
    assert_eq!(parse_duration(":"), Err(ParseError::InvalidNumber));
    assert_eq!(parse_duration("1 :5"), Err(ParseError::InvalidNumber));
    assert_eq!(parse_duration("-1:5"), Err(ParseError::InvalidNumber));
}

#[test]
fn values_too_large_for_u32_are_rejected() {
    assert_eq!(parse_duration("4294967296:0"), Err(ParseError::InvalidNumber));
    assert_eq!(parse_duration("100000000:0"), Err(ParseError::InvalidNumber));
    assert_eq!(parse_duration("0:4294967295"), Ok(u32::MAX));
}
