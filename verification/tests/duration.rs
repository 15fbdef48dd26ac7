//! Durations: units, the grammar, prefixes and written forms.

use std::collections::hash_map::DefaultHasher;
use std::hash::{Hash, Hasher};

use traces::duration::error::DurationError;
use traces::duration::grammar::DurationParts;
use traces::duration::unit::DurationUnit;
use traces::duration::value::{DurationSeconds, DurationValue};

fn total_seconds(parts: &DurationParts) -> f64 {
    let mut total = 0.0f64;
    for part in &parts.parts {
        let number: f64 = part.number().parse().unwrap();
        total += number.abs() * (part.unit().millis() as f64 / 1_000.0);
    }
    if parts.negative {
        -total
    } else {
        total
    }
}

fn parse(input: &str) -> Result<DurationValue, DurationError> {
    let parts = DurationParts::parse(input)?;
    let total = total_seconds(&parts);
    DurationValue::from_parts(parts, total.to_bits())
}

fn parse_prefix(input: &str) -> Option<(DurationValue, usize)> {
    let (parts, end) = DurationParts::parse_prefix(input)?;
    let total = total_seconds(&parts);
    Some((DurationValue::from_parts(parts, total.to_bits()).ok()?, end))
}

fn seconds(value: f64) -> Result<DurationSeconds, DurationError> {
    DurationSeconds::try_from_bits(value.to_bits())
}

fn from_seconds(value: DurationSeconds) -> DurationValue {
    let millis = (f64::from_bits(value.bits()).abs() * 1_000.0).round() as u64;
    DurationValue::from_seconds(value, millis)
}

fn hash_val<T: Hash>(val: &T) -> u64 {
    let mut hasher = DefaultHasher::new();
    val.hash(&mut hasher);
    hasher.finish()
}

#[test]
fn ord_uses_total_cmp() {
    let a = seconds(100.0).unwrap();
    let b = seconds(200.0).unwrap();
    assert!(a < b);
    assert!(b > a);
    assert_eq!(a, seconds(100.0).unwrap());
}

#[test]
fn negative_zero_comes_before_zero() {
    let negative = seconds(-0.0).unwrap();
    let positive = seconds(0.0).unwrap();
    assert!(negative < positive);
    assert!(negative != positive);
    assert!(negative.is_zero() && positive.is_zero());
    assert!(!negative.is_negative());
}

#[test]
fn try_from_rejects_nan() {
    assert!(seconds(f64::NAN).is_err());
}

#[test]
fn try_from_rejects_infinity() {
    assert!(seconds(f64::INFINITY).is_err());
    assert!(seconds(f64::NEG_INFINITY).is_err());
}

#[test]
fn non_finite_seconds_have_a_message() {
    let err = seconds(f64::INFINITY).unwrap_err();
    assert_eq!(err.message(), "duration seconds must be finite");
}

#[test]
fn from_duration_value() {
    let dv = parse("1h").unwrap();
    assert_eq!(dv.to_seconds(), seconds(3_600.0).unwrap());
}

#[test]
fn hashes_equal_seconds_identically() {
    let a = seconds(100.0).unwrap();
    let b = seconds(100.0).unwrap();
    assert_eq!(hash_val(&a), hash_val(&b));
}

#[test]
fn parses_single_unit() {
    let cases = [
        ("500ms", 0.5),
        ("90s", 90.0),
        ("30m", 1_800.0),
        ("1h", 3_600.0),
        ("2d", 172_800.0),
        ("1w", 604_800.0),
        ("3mo", 7_776_000.0),
        ("1y", 31_536_000.0),
    ];
    for (input, expected) in cases {
        assert_eq!(parse(input).unwrap().to_seconds(), seconds(expected).unwrap());
    }
}

#[test]
fn parses_multi_part_with_space() {
    let d = parse("1h 30m").unwrap();
    assert_eq!(d.to_seconds(), seconds(5_400.0).unwrap());
}

#[test]
fn parses_signed_durations_in_correct_order() {
    let neg = parse("-15m").unwrap();
    let zero = parse("0m").unwrap();
    let pos = parse("+15m").unwrap();
    assert!(neg < zero);
    assert!(zero < pos);
}

#[test]
fn duration_rejects_a_negative_sign_on_a_non_leading_component() {
    let err = parse("1h -30m").unwrap_err();
    assert!(matches!(err, DurationError::InvalidNumber { .. }));
}

#[test]
fn rejects_a_negative_sign_on_a_non_leading_component() {
    assert!(parse_prefix("1h -30m").is_none());
}

#[test]
fn error_message_for_an_invalid_number() {
    let err = parse("1h -30m").unwrap_err();
    assert_eq!(err.message(), "invalid number in `1h -30m`");
}

#[test]
fn accepts_a_redundant_positive_sign_on_a_non_leading_component() {
    let d = parse("1h +30m").unwrap();
    assert_eq!(d.to_seconds(), seconds(5_400.0).unwrap());
}

#[test]
fn parses_a_signed_decimal_without_a_leading_digit() {
    let d = parse("-.5h").unwrap();
    assert_eq!(d.to_seconds(), seconds(-1_800.0).unwrap());
}

#[test]
fn equates_semantically_equivalent_spellings() {
    let a = parse("1h 30m").unwrap();
    let b = parse("90m").unwrap();
    assert_eq!(a, b);
}

#[test]
fn hashes_semantically_equivalent_spellings_identically() {
    let a = parse("1h 30m").unwrap();
    let b = parse("90m").unwrap();
    assert_eq!(hash_val(&a.to_seconds()), hash_val(&b.to_seconds()));
}

#[test]
fn preserves_display_fidelity_of_raw_spelling() {
    let d = parse("4 yrs, 6 wks").unwrap();
    assert_eq!(format!("{}", d.as_str()), "4 yrs, 6 wks");
    assert_eq!(d.as_str(), "4 yrs, 6 wks");
}

#[test]
fn parses_multi_part_without_separator() {
    assert_eq!(parse("1h30m").unwrap().to_seconds(), seconds(5_400.0).unwrap());
}

#[test]
fn parses_multi_part_with_comma() {
    let d = parse("4 yrs, 6 wks").unwrap();
    assert_eq!(
        d.to_seconds(),
        seconds(4.0 * 31_536_000.0 + 6.0 * 604_800.0).unwrap()
    );
}

#[test]
fn parses_decimal_numbers() {
    assert_eq!(parse("1.5h").unwrap().to_seconds(), seconds(5_400.0).unwrap());
}

#[test]
fn parses_decimal_without_leading_digit() {
    assert_eq!(parse(".5h").unwrap().to_seconds(), seconds(1_800.0).unwrap());
}

#[test]
fn parses_with_leading_trailing_whitespace() {
    let d = parse(" 1h ").unwrap();
    assert_eq!(d.to_seconds(), seconds(3_600.0).unwrap());
}

#[test]
fn parses_with_multiple_consecutive_separators() {
    let d = parse("1  h  30  m").unwrap();
    assert_eq!(d.to_seconds(), seconds(5_400.0).unwrap());
}

#[test]
fn returns_empty_error_for_empty_input() {
    for input in ["", "   "] {
        assert!(matches!(parse(input), Err(DurationError::Empty)));
    }
    let err = parse("").unwrap_err();
    assert!(matches!(err, DurationError::Empty));
    assert_eq!(err.message(), "duration is empty");
}

#[test]
fn returns_missing_number_for_unit_without_number() {
    for input in ["h", ", h"] {
        assert!(matches!(parse(input), Err(DurationError::MissingNumber { .. })));
    }
}

#[test]
fn returns_missing_unit_for_malformed_number() {
    assert!(matches!(parse("1.2.3h"), Err(DurationError::MissingUnit { .. })));
}

#[test]
fn returns_missing_unit_for_number_without_unit() {
    assert!(matches!(parse("1"), Err(DurationError::MissingUnit { .. })));
}

#[test]
fn returns_unknown_unit_for_unrecognized_unit() {
    assert!(matches!(parse("1x"), Err(DurationError::UnknownUnit { .. })));
}

#[test]
fn error_message_for_unknown_unit() {
    let err = parse("1fortnight").unwrap_err();
    assert_eq!(err.message(), "unknown unit in `1fortnight`");
}

#[test]
fn error_message_for_missing_number() {
    let err = parse("hours").unwrap_err();
    assert_eq!(err.message(), "no number before unit in `hours`");
}

#[test]
fn error_message_for_missing_unit() {
    let err = parse("42").unwrap_err();
    assert_eq!(err.message(), "no unit after number in `42`");
}

#[test]
fn returns_none_for_unit_longer_than_16_bytes() {
    let long_unit = "a".repeat(17);
    let input = format!("1{long_unit}");
    assert!(parse(&input).is_err());
}

#[test]
fn rejects_numbers_beyond_a_double() {
    let limit = format!("1{}s", "0".repeat(308));
    assert!(parse(&limit).is_ok());
    let beyond = format!("1{}s", "0".repeat(309));
    assert!(matches!(parse(&beyond), Err(DurationError::InvalidNumber { .. })));
}

#[test]
fn rejects_a_total_beyond_a_double() {
    let input = format!("1{}y", "0".repeat(308));
    assert!(matches!(parse(&input), Err(DurationError::NonFiniteSeconds)));
}

#[test]
fn is_case_insensitive() {
    let cases = [
        ("H", DurationUnit::Hour),
        ("HOUR", DurationUnit::Hour),
        ("hours", DurationUnit::Hour),
    ];
    for (input, expected) in cases {
        assert_eq!(DurationUnit::parse(input).unwrap(), expected);
    }
}

#[test]
fn parses_all_units_and_abbreviations() {
    let cases = [
        ("ms", DurationUnit::Millisecond),
        ("millisecond", DurationUnit::Millisecond),
        ("milliseconds", DurationUnit::Millisecond),
        ("s", DurationUnit::Second),
        ("sec", DurationUnit::Second),
        ("secs", DurationUnit::Second),
        ("second", DurationUnit::Second),
        ("seconds", DurationUnit::Second),
        ("m", DurationUnit::Minute),
        ("min", DurationUnit::Minute),
        ("mins", DurationUnit::Minute),
        ("minute", DurationUnit::Minute),
        ("minutes", DurationUnit::Minute),
        ("h", DurationUnit::Hour),
        ("hr", DurationUnit::Hour),
        ("hrs", DurationUnit::Hour),
        ("hour", DurationUnit::Hour),
        ("hours", DurationUnit::Hour),
        ("d", DurationUnit::Day),
        ("day", DurationUnit::Day),
        ("days", DurationUnit::Day),
        ("w", DurationUnit::Week),
        ("wk", DurationUnit::Week),
        ("wks", DurationUnit::Week),
        ("week", DurationUnit::Week),
        ("weeks", DurationUnit::Week),
        ("mo", DurationUnit::Month),
        ("mos", DurationUnit::Month),
        ("month", DurationUnit::Month),
        ("months", DurationUnit::Month),
        ("y", DurationUnit::Year),
        ("yr", DurationUnit::Year),
        ("yrs", DurationUnit::Year),
        ("year", DurationUnit::Year),
        ("years", DurationUnit::Year),
    ];
    for (input, expected) in cases {
        assert_eq!(DurationUnit::parse(input).unwrap(), expected);
    }
}

#[test]
fn rejects_unknown() {
    assert!(DurationUnit::parse("foo").is_none());
}

#[test]
fn returns_none_for_string_exactly_16_bytes() {
    let exactly_16 = "a".repeat(16);
    assert!(DurationUnit::parse(&exactly_16).is_none());
}

#[test]
fn returns_none_for_string_longer_than_16_bytes() {
    let long = "a".repeat(17);
    assert!(DurationUnit::parse(&long).is_none());
}

#[test]
fn returns_none_for_empty_string() {
    assert!(DurationUnit::parse("").is_none());
}

#[test]
fn roundtrips_valid_input() {
    let d = parse("1h 30m").unwrap();
    assert_eq!(d.to_seconds(), seconds(5_400.0).unwrap());
}

#[test]
fn returns_error_for_invalid_input() {
    let err = parse("not a duration").unwrap_err();
    assert!(matches!(err, DurationError::MissingNumber { .. }));
}

#[test]
fn error_display_contains_context() {
    let err = parse("1fortnight").unwrap_err();
    assert_eq!(err.message(), "unknown unit in `1fortnight`");
}

const UNITS: [DurationUnit; 8] = [
    DurationUnit::Millisecond,
    DurationUnit::Second,
    DurationUnit::Minute,
    DurationUnit::Hour,
    DurationUnit::Day,
    DurationUnit::Week,
    DurationUnit::Month,
    DurationUnit::Year,
];

#[test]
fn unit_map_covers_all_unit_types() {
    let spellings = ["ms", "s", "m", "h", "d", "w", "mo", "y"];
    let mut seen: Vec<DurationUnit> = Vec::new();
    for spelling in spellings {
        let unit = DurationUnit::parse(spelling).unwrap();
        if !seen.contains(&unit) {
            seen.push(unit);
        }
    }
    assert_eq!(seen.len(), 8);
}

#[test]
fn seconds_are_consistent() {
    for unit in UNITS {
        let secs = unit.millis() as f64 / 1_000.0;
        assert!(secs > 0.0, "{unit:?} has non-positive seconds");
    }
}

#[test]
fn seconds_i64_matches_seconds() {
    let units = [
        (DurationUnit::Millisecond, None),
        (DurationUnit::Second, Some(1)),
        (DurationUnit::Minute, Some(60)),
        (DurationUnit::Hour, Some(3_600)),
        (DurationUnit::Day, Some(86_400)),
        (DurationUnit::Week, Some(604_800)),
        (DurationUnit::Month, Some(2_592_000)),
        (DurationUnit::Year, Some(31_536_000)),
    ];
    for (unit, expected) in units {
        assert_eq!(unit.seconds_i64(), expected);
    }
}

#[test]
fn parse_roundtrips_each_unit() {
    let spellings: &[(&str, DurationUnit)] = &[
        ("ms", DurationUnit::Millisecond),
        ("s", DurationUnit::Second),
        ("m", DurationUnit::Minute),
        ("h", DurationUnit::Hour),
        ("d", DurationUnit::Day),
        ("w", DurationUnit::Week),
        ("mo", DurationUnit::Month),
        ("y", DurationUnit::Year),
    ];
    for &(spelling, expected) in spellings {
        assert_eq!(
            DurationUnit::parse(spelling).unwrap(),
            expected,
            "roundtrip failed for {spelling}"
        );
    }
}

#[test]
fn parses_valid_prefix_and_advances_to_boundary() {
    let (dv, consumed) = parse_prefix("45m]").expect("prefix");
    assert_eq!(consumed, 3);
    assert_eq!(dv.as_str(), "45m");
    assert_eq!(dv.to_seconds(), seconds(2_700.0).unwrap());
}

#[test]
fn parses_a_decimal_prefix_without_a_leading_digit() {
    let (dv, consumed) = parse_prefix(".5h remainder").expect("prefix");
    assert_eq!(consumed, 3);
    assert_eq!(dv.as_str(), ".5h");
    assert_eq!(dv.to_seconds(), seconds(1_800.0).unwrap());
}

#[test]
fn parses_multi_part_prefix_without_trailing_separators() {
    let (dv, consumed) = parse_prefix("1h, 30m, extra").expect("prefix");
    assert_eq!(consumed, 7);
    assert_eq!(dv.as_str(), "1h, 30m");
    assert_eq!(dv.to_seconds(), seconds(5_400.0).unwrap());
}

#[test]
fn rejects_non_duration_prefix() {
    assert!(parse_prefix("not a duration").is_none());
}

#[test]
fn rejects_hyphen_bullet_without_immediate_digit() {
    assert!(parse_prefix("- 15m").is_none());
}

#[test]
fn accepts_a_leading_digit() {
    assert!(DurationValue::can_start("1h"));
}

#[test]
fn accepts_a_leading_decimal_point_followed_by_a_digit() {
    assert!(DurationValue::can_start(".5h"));
}

#[test]
fn accepts_a_leading_sign_followed_by_a_digit() {
    assert!(DurationValue::can_start("+1h"));
    assert!(DurationValue::can_start("-30m"));
}

#[test]
fn accepts_a_leading_sign_followed_by_a_decimal_digit() {
    assert!(DurationValue::can_start("+.5h"));
}

#[test]
fn rejects_a_non_numeric_leading_character() {
    assert!(!DurationValue::can_start("hello"));
}

#[test]
fn rejects_an_empty_string() {
    assert!(!DurationValue::can_start(""));
}

#[test]
fn rejects_a_lone_sign_with_no_following_digit() {
    assert!(!DurationValue::can_start("+"));
}

#[test]
fn rejects_a_lone_decimal_point_with_no_following_digit() {
    assert!(!DurationValue::can_start("."));
}

#[test]
fn synthesizes_zero_duration_as_0s() {
    let zero = seconds(0.0).unwrap();
    let dv = from_seconds(zero);
    assert_eq!(dv.as_str(), "0s");
    assert_eq!(dv.to_seconds(), zero);
}

#[test]
fn synthesizes_positive_decomposed_units() {
    let secs = seconds(5_400.0).unwrap();
    let dv = from_seconds(secs);
    assert_eq!(dv.as_str(), "1h 30m");
    assert_eq!(dv.to_seconds(), secs);
}

#[test]
fn synthesizes_negative_decomposed_units_with_leading_minus() {
    let secs = seconds(-5_400.0).unwrap();
    let dv = from_seconds(secs);
    assert_eq!(dv.as_str(), "-1h 30m");
    assert_eq!(dv.to_seconds(), secs);
}

#[test]
fn synthesizes_tiny_negative_durations_with_leading_minus() {
    let secs = seconds(-0.0001).unwrap();
    assert_eq!(from_seconds(secs).as_str(), "-0s");
    assert_eq!(from_seconds(seconds(0.0001).unwrap()).as_str(), "0s");
    assert_eq!(from_seconds(seconds(-0.0).unwrap()).as_str(), "0s");
}

#[test]
fn synthesizes_every_unit_in_order() {
    let secs = seconds(604_800.0 + 86_400.0 + 3_600.0 + 60.0 + 1.0 + 0.5).unwrap();
    assert_eq!(from_seconds(secs).as_str(), "1w 1d 1h 1m 1s 500ms");
}

#[test]
fn roundtrips_synthesized_duration_through_parser() {
    let cases = [
        90.0,
        5_400.0,
        604_800.0 + 86_400.0 + 3_600.0 + 60.0 + 1.0 + 0.5,
        -5_400.0,
        -(86_400.0 + 3_600.0),
    ];
    for raw_seconds in cases {
        let secs = seconds(raw_seconds).unwrap();
        let synthesized = from_seconds(secs);
        let reparsed = parse(synthesized.as_str()).expect("synthesized string must parse");
        assert_eq!(reparsed.to_seconds(), secs);
    }
}

#[test]
fn prefixes_are_durations_of_their_own() {
    for input in ["1h 30m, then", "-2d 4h", "+5 min x", "1.5h,2m;", ".5s1", "3w 2", "12ms"] {
        let Some((value, end)) = parse_prefix(input) else {
            continue;
        };
        let head = &input[..end];
        assert_eq!(value.as_str(), head);
        assert!(head.ends_with(|c: char| c.is_ascii_alphabetic()));
        assert_eq!(parse(head).expect("a duration").to_seconds(), value.to_seconds());
    }
    assert_eq!(parse_prefix("1h 30m, then").expect("a prefix").1, 6);
    assert!(parse_prefix("h 30m").is_none());
}

#[test]
fn joined_durations_add_up() {
    for a in ["1h", " 2d 30m ", "90 s"] {
        for b in ["1m", "3w, 4h", "  7s"] {
            for gap in [" ", ", ", ",", "\t,\n"] {
                let joined = DurationParts::parse(&format!("{a}{gap}{b}")).expect("a duration");
                let first = DurationParts::parse(a).expect("a duration");
                let second = DurationParts::parse(b).expect("a duration");
                assert_eq!(joined.parts.len(), first.parts.len() + second.parts.len());
                assert_eq!(
                    total_seconds(&joined),
                    total_seconds(&first) + total_seconds(&second)
                );
            }
        }
    }
    assert!(DurationParts::parse("1h\u{a0} 1m").is_err());
}
