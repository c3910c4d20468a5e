use iso8601_duration::parse;
use iso8601_duration::to_nanos;
use iso8601_duration::Duration;
use iso8601_duration::Parts;

#[test]
fn duration_test_nanos() {
    assert_eq!(0, to_nanos("0").unwrap());
    assert_eq!(0, to_nanos("000").unwrap());

    assert_eq!(1, to_nanos("000000001").unwrap());
    assert_eq!(10, to_nanos("00000001").unwrap());
    assert_eq!(100, to_nanos("0000001").unwrap());
    assert_eq!(1000, to_nanos("000001").unwrap());
    assert_eq!(10000, to_nanos("00001").unwrap());
    assert_eq!(100000, to_nanos("0001").unwrap());
    assert_eq!(1000000, to_nanos("001").unwrap());
    assert_eq!(10000000, to_nanos("01").unwrap());
    assert_eq!(100000000, to_nanos("1").unwrap());

    assert_eq!(7_010, to_nanos("00000701").unwrap());
}

#[test]
fn duration_duration() {
    assert_eq!(Duration::new(7, 0), parse("PT7S").unwrap());
    assert_eq!(Duration::new(7, 5_000_000), parse("PT7.005S").unwrap());
    assert_eq!(Duration::new(2 * 60, 0), parse("PT2M").unwrap());
    assert_eq!(
        Duration::new((2 * 24 + 1) * 60 * 60, 0),
        parse("P2DT1H").unwrap()
    );
}

#[test]
fn duration_parts() {
    let mut p = Parts::new("1D23M");
    assert_eq!(Some(("1", 'D')), p.next());
    assert_eq!(Some(("23", 'M')), p.next());
}

#[test]
fn duration_hand_duration() {
    assert_eq!(Duration::new(7, 0), parse("PT7S").unwrap());
    assert_eq!(Duration::new(7, 5_000_000), parse("PT7.005S").unwrap());
    assert_eq!(Duration::new(2 * 60, 0), parse("PT2M").unwrap());
    assert_eq!(
        Duration::new((2 * 24 + 1) * 60 * 60, 0),
        parse("P2DT1H").unwrap()
    );
}

#[test]
fn duration_hand_parts() {
    let mut p = Parts::new("1D23M");
    assert_eq!(Some(("1", 'D')), p.next());
    assert_eq!(Some(("23", 'M')), p.next());
}

#[test]
fn duration_nom_duration() {
    assert_eq!(Duration::new(7, 0), parse("PT7S").unwrap());
    assert_eq!(Duration::new(7, 5_000_000), parse("PT7.005S").unwrap());
    assert_eq!(Duration::new(2 * 60, 0), parse("PT2M").unwrap());
    assert_eq!(
        Duration::new((2 * 24 + 1) * 60 * 60, 0),
        parse("P2DT1H").unwrap()
    );
    assert!(parse("PT2").is_err());
    assert!(parse("PT22").is_err());
    assert!(parse("PT2M2").is_err());
    assert!(parse("T2S").is_err());
    assert!(parse("P2S").is_err());
}

#[test]
fn mod_test_nanos() {
    assert_eq!(0, to_nanos("0").unwrap());
    assert_eq!(0, to_nanos("000").unwrap());

    assert_eq!(1, to_nanos("000000001").unwrap());
    assert_eq!(10, to_nanos("00000001").unwrap());
    assert_eq!(100, to_nanos("0000001").unwrap());
    assert_eq!(1000, to_nanos("000001").unwrap());
    assert_eq!(10000, to_nanos("00001").unwrap());
    assert_eq!(100000, to_nanos("0001").unwrap());
    assert_eq!(1000000, to_nanos("001").unwrap());
    assert_eq!(10000000, to_nanos("01").unwrap());
    assert_eq!(100000000, to_nanos("1").unwrap());

    assert_eq!(7_010, to_nanos("00000701").unwrap());
}
