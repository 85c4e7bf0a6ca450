use tzdb_transform::error::ParseError;
use tzdb_transform::offset::str_to_offset;

#[test]
fn positive_offset() {
    assert_eq!(str_to_offset("08:00:00"), Ok(28800));
}

#[test]
fn negative_offset_with_minutes() {
    assert_eq!(str_to_offset("-05:30:00"), Ok(-19800));
}

#[test]
fn zero_offset() {
    assert_eq!(str_to_offset("00:00:00"), Ok(0));
}

#[test]
fn two_fields_are_malformed() {
    assert_eq!(str_to_offset("5:00"), Err(ParseError::MalformedOffset));
}

#[test]
fn four_fields_are_malformed() {
    assert_eq!(str_to_offset("1:00:00:00"), Err(ParseError::MalformedOffset));
}

#[test]
fn empty_text_is_malformed() {
    assert_eq!(str_to_offset(""), Err(ParseError::MalformedOffset));
}

#[test]
fn letters_are_not_a_number() {
    assert_eq!(str_to_offset("ab:00:00"), Err(ParseError::InvalidNumber));
}

#[test]
fn empty_field_is_not_a_number() {
    assert_eq!(str_to_offset("05::00"), Err(ParseError::InvalidNumber));
    assert_eq!(str_to_offset("-:00:00"), Err(ParseError::InvalidNumber));
}

#[test]
fn hour_beyond_i32_is_not_a_number() {
    assert_eq!(str_to_offset("2147483648:00:00"), Err(ParseError::InvalidNumber));
}

#[test]
fn smallest_i32_hour_is_accepted() {
    assert_eq!(str_to_offset("-2147483648:00:00"), Ok(-2147483648i64 * 3600));
}

#[test]
fn minus_zero_hour_keeps_the_sign() {
    assert_eq!(str_to_offset("-0:30:00"), Ok(-1800));
    assert_eq!(str_to_offset("-00:00:15"), Ok(-15));
    assert_eq!(str_to_offset("0:30:00"), Ok(1800));
}

#[test]
fn sign_follows_hour_text() {
    assert_eq!(str_to_offset("+05:45:00"), Ok(20700));
    assert_eq!(str_to_offset("-09:30:30"), Ok(-34230));
    assert_eq!(str_to_offset("-0:00:00"), Ok(0));
    assert_eq!(str_to_offset("14:00:00"), Ok(50400));
    assert_eq!(str_to_offset("-12:00:00"), Ok(-43200));
}
