use astra::fixed::{Fixed, FixedParseError};

fn parse(s: &str) -> Fixed {
    s.parse().unwrap()
}

#[test]
fn parses_and_displays_canonically() {
    assert_eq!(parse("0").to_string(), "0.00000000");
    assert_eq!(parse("108105.12").to_string(), "108105.12000000");
    assert_eq!(parse("-1.5").to_string(), "-1.50000000");
    assert_eq!(parse(".5").to_string(), "0.50000000");
    assert_eq!(parse("5.").to_string(), "5.00000000");
    assert_eq!(parse("+2.25").to_string(), "2.25000000");
}

#[test]
fn rejects_bad_literals() {
    assert_eq!("".parse::<Fixed>().unwrap_err(), FixedParseError::Empty);
    assert_eq!(
        "1.234567891".parse::<Fixed>().unwrap_err(),
        FixedParseError::ExcessPrecision("1.234567891".to_owned())
    );
    assert_eq!(
        "12.a".parse::<Fixed>().unwrap_err(),
        FixedParseError::Invalid("12.a".to_owned())
    );
    assert_eq!(
        "1.2.3".parse::<Fixed>().unwrap_err(),
        FixedParseError::Invalid("1.2.3".to_owned())
    );
}

#[test]
fn rounds_half_away_from_zero_at_the_eighth_place() {
    assert_eq!(
        parse("1.5")
            .checked_mul(parse("0.00000001"))
            .unwrap()
            .to_string(),
        "0.00000002"
    );
    assert_eq!(
        parse("-1.5")
            .checked_mul(parse("0.00000001"))
            .unwrap()
            .to_string(),
        "-0.00000002"
    );
    assert_eq!(
        parse("2").checked_div(parse("3")).unwrap().to_string(),
        "0.66666667"
    );
}

#[test]
fn arithmetic_is_exact_at_scale() {
    let price = parse("108105.12");
    let quantity = parse("0.001");
    assert_eq!(
        price.checked_mul(quantity).unwrap().to_string(),
        "108.10512000"
    );
    assert_eq!(
        parse("2.5").checked_add(parse("0.25")).unwrap().to_string(),
        "2.75000000"
    );
    assert_eq!(
        parse("2.5").checked_sub(parse("3.0")).unwrap().to_string(),
        "-0.50000000"
    );
    assert_eq!(
        parse("1").checked_div(parse("8")).unwrap().to_string(),
        "0.12500000"
    );
    assert_eq!(parse("1").checked_div(Fixed::zero()), None);
}

#[test]
fn text_round_trips_through_parse() {
    for raw in [0i128, 1, -1, 150_000_000, -10_810_512_345_678, i128::MAX] {
        let value = Fixed::from_raw(raw);
        assert_eq!(Fixed::parse(&value.to_string()), Ok(value));
    }
}

#[test]
fn surrounding_whitespace_is_ignored() {
    assert_eq!(parse("  1.25\t").to_string(), "1.25000000");
    assert_eq!(Fixed::parse("   "), Err(FixedParseError::Empty));
}

#[test]
fn out_of_range_literals_are_refused() {
    assert_eq!(
        Fixed::parse("99999999999999999999999999999999999"),
        Err(FixedParseError::OutOfRange(
            "99999999999999999999999999999999999".to_owned()
        ))
    );
}

#[test]
fn a_missing_whole_part_reads_as_zero() {
    assert_eq!(Fixed::parse("-"), Ok(Fixed::zero()));
    assert_eq!(Fixed::parse("."), Ok(Fixed::zero()));
    assert_eq!(Fixed::parse("-.25"), Ok(Fixed::from_raw(-25_000_000)));
    assert_eq!(Fixed::parse("1e5"), Err(FixedParseError::Invalid("1e5".to_owned())));
}

#[test]
fn constants_and_conversions() {
    assert_eq!(Fixed::zero().raw(), 0);
    assert_eq!(Fixed::one().raw(), 100_000_000);
    assert_eq!(Fixed::from_units(-3).to_string(), "-3.00000000");
    assert!(Fixed::zero().is_zero());
    assert!(!Fixed::one().is_zero());
    assert_eq!(Fixed::from_raw(i128::MIN).checked_neg(), None);
    assert_eq!(Fixed::one().checked_neg(), Some(Fixed::from_raw(-100_000_000)));
}

#[test]
fn overflow_is_reported_not_wrapped() {
    assert_eq!(Fixed::from_raw(i128::MAX).checked_add(Fixed::from_raw(1)), None);
    assert_eq!(Fixed::from_raw(i128::MIN).checked_sub(Fixed::from_raw(1)), None);
    assert_eq!(Fixed::from_raw(i128::MAX).checked_mul(parse("2")), None);
}

#[test]
fn division_rounds_half_away_from_zero() {
    assert_eq!(parse("-2").checked_div(parse("3")).unwrap().to_string(), "-0.66666667");
    assert_eq!(parse("1").checked_div(parse("-8")).unwrap().to_string(), "-0.12500000");
}
