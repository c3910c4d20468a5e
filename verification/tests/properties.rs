use iso8601_duration::parse;
use iso8601_duration::to_nanos;
use iso8601_duration::Duration;
use iso8601_duration::ParseError;
use iso8601_duration::Parts;

#[test]
fn weighted_sum_of_all_fields() {
    // 1*604800 + 2*86400 + 3*3600 + 4*60 + 5 seconds, 0.6 seconds fraction.
    assert_eq!(
        Duration::new(788_645, 600_000_000),
        parse("P1W2DT3H4M5.6S").unwrap()
    );
    assert_eq!(Duration::new(604_800, 0), parse("P1W").unwrap());
    assert_eq!(Duration::new(86_400 + 60, 0), parse("P1DT1M").unwrap());
}

#[test]
fn zero_duration_boundaries() {
    assert_eq!(Duration::new(0, 0), parse("P").unwrap());
    assert_eq!(Duration::new(0, 0), parse("PT").unwrap());
    assert_eq!(Duration::new(2 * 86_400, 0), parse("P2DT").unwrap());
}

#[test]
fn trailing_data_kinds() {
    assert_eq!(ParseError::TrailingData, parse("PT2").unwrap_err());
    assert_eq!(ParseError::TrailingData, parse("PT22").unwrap_err());
    assert_eq!(ParseError::TrailingData, parse("PT2M2").unwrap_err());
    // An unknown designator letter is trailing text, not a field.
    assert_eq!(ParseError::TrailingData, parse("P3Y").unwrap_err());
    assert_eq!(ParseError::TrailingData, parse("PT1M ").unwrap_err());
}

#[test]
fn malformed_prefix_kinds() {
    assert_eq!(ParseError::MalformedPrefix, parse("T2S").unwrap_err());
    assert_eq!(ParseError::MalformedPrefix, parse("").unwrap_err());
    assert_eq!(ParseError::MalformedPrefix, parse("2P").unwrap_err());
    // Designators are case-sensitive.
    assert_eq!(ParseError::MalformedPrefix, parse("pt7s").unwrap_err());
}

#[test]
fn field_out_of_order_kinds() {
    // A time field without the time separator.
    assert_eq!(ParseError::FieldOutOfOrder, parse("P2S").unwrap_err());
    // A repeated field.
    assert_eq!(ParseError::FieldOutOfOrder, parse("P1W2W").unwrap_err());
    // A field after a later-ordered one.
    assert_eq!(ParseError::FieldOutOfOrder, parse("P1D2W").unwrap_err());
    assert_eq!(ParseError::FieldOutOfOrder, parse("PT1S2M").unwrap_err());
}

#[test]
fn unexpected_data_before_time_separator() {
    assert_eq!(
        ParseError::UnexpectedDataBeforeTimeSeparator,
        parse("P2T1H").unwrap_err()
    );
}

#[test]
fn numeric_parse_errors() {
    // Empty body.
    assert_eq!(ParseError::NumericParseError, parse("PW").unwrap_err());
    // A dot outside the seconds field.
    assert_eq!(ParseError::NumericParseError, parse("P1.5D").unwrap_err());
    // Beyond the 64-bit range.
    assert_eq!(
        ParseError::NumericParseError,
        parse("PT99999999999999999999S").unwrap_err()
    );
    // A fraction with no whole part.
    assert_eq!(ParseError::NumericParseError, parse("PT.5S").unwrap_err());
    // An empty fraction.
    assert_eq!(ParseError::NumericParseError, parse("PT5.S").unwrap_err());
    // A second dot inside the fraction.
    assert_eq!(ParseError::NumericParseError, parse("PT1.2.3S").unwrap_err());
}

#[test]
fn fractional_padding() {
    assert_eq!(Ok(100_000_000), to_nanos("1"));
    assert_eq!(Ok(701), to_nanos("000000701"));
    assert_eq!(
        Err(ParseError::FractionalSecondsOverflow),
        to_nanos("0000000001")
    );
    assert_eq!(Err(ParseError::NumericParseError), to_nanos(""));
    assert_eq!(Err(ParseError::NumericParseError), to_nanos("12a"));
    assert_eq!(
        ParseError::FractionalSecondsOverflow,
        parse("PT1.0123456789S").unwrap_err()
    );
    assert_eq!(Duration::new(1, 12_345_678), parse("PT1.012345678S").unwrap());
}

#[test]
fn duration_overflow() {
    assert_eq!(
        ParseError::DurationOverflow,
        parse("P1000000000000000W").unwrap_err()
    );
    // The seconds field alone fits; adding the day pushes the sum over.
    assert_eq!(
        Duration::new(u64::MAX, 0),
        parse("PT18446744073709551615S").unwrap()
    );
    assert_eq!(
        ParseError::DurationOverflow,
        parse("P1DT18446744073709551615S").unwrap_err()
    );
}

#[test]
fn reparse_is_identical() {
    let a = parse("P2DT1H");
    let b = parse("P2DT1H");
    assert_eq!(a, b);
    let c = parse("P2S");
    let d = parse("P2S");
    assert_eq!(c, d);
}

#[test]
fn accessors() {
    let d = parse("PT1.5S").unwrap();
    assert_eq!(1, d.as_secs());
    assert_eq!(500_000_000, d.subsec_nanos());
}

#[test]
fn tokenizer_walk() {
    let mut p = Parts::new("P1DT2H");
    assert_eq!(Some(("", 'P')), p.next());
    assert_eq!(Some(("1", 'D')), p.next());
    assert_eq!(Some(("", 'T')), p.next());
    assert_eq!(Some(("2", 'H')), p.next());
    assert_eq!(None, p.next());
    assert_eq!("", p.remainder());

    let mut q = Parts::new("12.5");
    assert_eq!(None, q.next());
    assert_eq!("12.5", q.remainder());
}
