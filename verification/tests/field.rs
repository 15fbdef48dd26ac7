//! Field names and keys, document values and suggestions.

use traces::field::key::{FieldKey, FieldKeyError};
use traces::field::name::{FieldName, FieldNameError, FieldNameRef};
use traces::field::suggest::{closest_match, edit_distance};
use traces::field::value::FieldValue;
use traces::field::yaml::{yaml_scalar_to_string, YamlValue};
use traces::number::Number;

fn yaml_number(value: f64, text: &str) -> YamlValue {
    YamlValue::Number(
        Some(Number::new(value.to_bits(), value.to_string())),
        text.to_owned(),
    )
}

#[test]
fn accepts_a_well_formed_name() {
    let name = FieldName::try_from("Status").expect("valid name");
    assert_eq!(name.as_str(), "Status");
}

#[test]
fn constructs_from_an_owned_string() {
    let name = FieldName::try_from("Status".to_owned().as_str()).expect("valid name");
    assert_eq!(name.as_str(), "Status");
}

#[test]
fn field_parses_via_from_str() {
    let name = FieldName::try_from("Status").expect("valid name");
    assert_eq!(name.as_str(), "Status");
}

#[test]
fn parses_via_from_str() {
    let key = FieldKey::try_new("Status").expect("valid key");
    assert_eq!(key.name(), "Status");
}

#[test]
fn rejects_an_empty_name() {
    assert!(matches!(FieldName::try_from(""), Err(FieldNameError::Empty)));
}

#[test]
fn rejects_a_whitespace_only_name() {
    assert!(matches!(FieldName::try_from("   "), Err(FieldNameError::Empty)));
}

#[test]
fn rejects_a_name_containing_a_slash() {
    assert!(matches!(
        FieldName::try_from("global/status"),
        Err(FieldNameError::ContainsSlash { .. })
    ));
}

#[test]
fn rejects_a_name_with_an_empty_canonical_form() {
    assert!(matches!(
        FieldName::try_from("!!!"),
        Err(FieldNameError::EmptyCanonical { .. })
    ));
}

#[test]
fn field_name_ref_constructs_a_valid_name() {
    let name = FieldNameRef::try_from("Status").expect("valid name");
    assert_eq!(name.as_str(), "Status");
}

#[test]
fn field_name_ref_rejects_an_invalid_name() {
    assert!(matches!(FieldNameRef::try_from(""), Err(FieldNameError::Empty)));
}

#[test]
fn accepts_a_scalar() {
    let cases = [
        (YamlValue::String("hello".to_owned()), "hello"),
        (yaml_number(3.0, "3"), "3"),
        (YamlValue::Bool(true), "true"),
    ];
    for (value, expected) in cases {
        let name = FieldName::try_from_yaml(&value).expect("valid name");
        assert_eq!(name.as_str(), expected);
    }
}

#[test]
fn field_rejects_a_null_value() {
    assert!(matches!(
        FieldName::try_from_yaml(&YamlValue::Null),
        Err(FieldNameError::UnsupportedYamlKey)
    ));
}

#[test]
fn rejects_a_null_value() {
    assert!(matches!(
        FieldKey::try_from_yaml(&YamlValue::Null),
        Err(FieldKeyError::UnsupportedYamlKey)
    ));
}

#[test]
fn rejects_an_empty_string_after_coercion() {
    assert!(matches!(
        FieldName::try_from_yaml(&YamlValue::String(String::new())),
        Err(FieldNameError::Empty)
    ));
}

#[test]
fn only_scalars_have_a_text() {
    assert_eq!(yaml_scalar_to_string(&YamlValue::Bool(false)), Some("false".to_owned()));
    assert_eq!(yaml_scalar_to_string(&yaml_number(1.5, "1.5")), Some("1.5".to_owned()));
    assert_eq!(yaml_scalar_to_string(&YamlValue::Sequence(Vec::new())), None);
    assert_eq!(yaml_scalar_to_string(&YamlValue::Null), None);
}

#[test]
fn name_errors_have_messages() {
    assert_eq!(
        FieldName::try_from("").unwrap_err().message(),
        "field name is empty"
    );
    assert_eq!(
        FieldName::try_from("a/b").unwrap_err().message(),
        "field name \"a/b\" cannot contain `/`"
    );
    assert_eq!(
        FieldName::try_from("!!!").unwrap_err().message(),
        "field name \"!!!\" has no searchable characters"
    );
    assert_eq!(
        FieldName::try_from_yaml(&YamlValue::Null).unwrap_err().message(),
        "YAML value cannot be used as a field name"
    );
}

#[test]
fn key_errors_have_messages() {
    assert_eq!(
        FieldKey::try_new("").unwrap_err().message(),
        "field key is empty"
    );
    assert_eq!(
        FieldKey::try_new("!!!").unwrap_err().message(),
        "field key \"!!!\" has no searchable characters"
    );
    assert_eq!(
        FieldKey::try_from_yaml(&YamlValue::Null).unwrap_err().message(),
        "YAML value cannot be used as a field key"
    );
}

#[test]
fn rejects_case_insensitive_equality() {
    let lower = FieldName::try_from("status").expect("valid");
    let upper = FieldName::try_from("Status").expect("valid");
    assert_ne!(lower.as_str(), upper.as_str());
}

#[test]
fn to_key_computes_the_canonical_form() {
    let name = FieldName::try_from("Time Played").expect("valid");
    assert_eq!(name.to_key().canonical(), "time-played");
}

#[test]
fn round_trips_through_field_name_ref() {
    let owned = FieldName::try_from("status").expect("valid");
    let borrowed = owned.as_ref();
    assert_eq!(borrowed.to_owned_name().as_str(), owned.as_str());
}

#[test]
fn returns_the_original_name_text() {
    let key = FieldKey::try_new("Status").expect("valid key");
    assert_eq!(key.name(), "Status");
}

#[test]
fn constructs_via_try_from_string() {
    let key = FieldKey::try_new("Status".to_owned().as_str()).expect("valid key");
    assert_eq!(key.name(), "Status");
}

#[test]
fn constructs_via_try_from_str() {
    let key = FieldKey::try_new("Status").expect("valid key");
    assert_eq!(key.name(), "Status");
}

#[test]
fn rejects_an_empty_key() {
    assert!(matches!(FieldKey::try_new(""), Err(FieldKeyError::Empty)));
}

#[test]
fn rejects_a_whitespace_only_key() {
    assert!(matches!(FieldKey::try_new("   "), Err(FieldKeyError::Empty)));
}

#[test]
fn rejects_a_key_with_an_empty_canonical_form() {
    assert!(matches!(
        FieldKey::try_new("!!!"),
        Err(FieldKeyError::EmptyCanonical { .. })
    ));
}

#[test]
fn accepts_a_string_scalar() {
    let value = YamlValue::String("hello".to_owned());
    let key = FieldKey::try_from_yaml(&value).expect("valid key");
    assert_eq!(key.name(), "hello");
}

#[test]
fn accepts_a_number_scalar() {
    let key = FieldKey::try_from_yaml(&yaml_number(3.0, "3")).expect("valid key");
    assert_eq!(key.name(), "3");
}

#[test]
fn canonicalizes() {
    let cases = [
        ("Time Played", "time-played"),
        ("Status", "status"),
        ("field2", "field2"),
        ("due date", "due-date"),
        ("a  b", "a--b"),
        ("field-name!", "field-name"),
        ("my_field-name", "my_field-name"),
        ("🗓️due", "🗓️due"),
        ("CAFÉ", "café"),
    ];
    for (raw, expected) in cases {
        let key = FieldKey::try_new(raw).expect("valid key");
        assert_eq!(key.canonical(), expected);
    }
}

#[test]
fn is_match_matches_the_exact_raw_name() {
    let key = FieldKey::try_new("Status").expect("valid key");
    assert!(key.is_match("Status"));
}

#[test]
fn is_match_falls_back_to_canonical_form() {
    let key = FieldKey::try_new("Status").expect("valid key");
    assert!(key.is_match("status"));
    assert!(!key.is_match("other"));
}

#[test]
fn is_canonical_match_uses_canonical_form() {
    let key = FieldKey::try_new("Status").expect("valid key");
    assert!(key.is_canonical_match("status"));
    assert!(key.is_canonical_match("Status"));
    assert!(!key.is_canonical_match("other"));
}

#[test]
fn is_name_match_requires_exact_raw_text() {
    let key = FieldKey::try_new("Status").expect("valid key");
    let exact = FieldName::try_from("Status").expect("valid name");
    let different_case = FieldName::try_from("status").expect("valid name");
    assert!(key.is_name_match(&exact));
    assert!(!key.is_name_match(&different_case));
}

#[test]
fn partial_eq_uses_canonical_form() {
    let a = FieldKey::try_new("Status").expect("valid key");
    let b = FieldKey::try_new("status").expect("valid key");
    assert_eq!(a, b);
}

#[test]
fn partial_eq_treats_different_canonical_forms_as_unequal() {
    let a = FieldKey::try_new("Status").expect("valid key");
    let b = FieldKey::try_new("Priority").expect("valid key");
    assert_ne!(a, b);
}

#[test]
fn constructs_from_a_field_name() {
    let name = FieldName::try_from("Status").expect("valid name");
    let key = name.to_key();
    assert_eq!(key.name(), "Status");
    assert_eq!(key.canonical(), "status");
}

#[test]
fn as_f64_converts_numbers_and_rejects_other_variants() {
    let cases = [
        (FieldValue::Int(-3), Some(-3.0)),
        (FieldValue::Float(1.5f64.to_bits()), Some(1.5)),
        (FieldValue::Bool(true), None),
        (FieldValue::Int(0), Some(0.0)),
        (FieldValue::Int(i64::MIN), Some(-9_223_372_036_854_775_808.0)),
        (FieldValue::Int(i64::MAX), Some(9_223_372_036_854_775_807.0)),
        (FieldValue::Int(9_007_199_254_740_993), Some(9_007_199_254_740_992.0)),
    ];
    for (value, expected) in cases {
        assert_eq!(value.as_f64().map(f64::from_bits), expected);
    }
}

#[test]
fn saturates_a_u64_beyond_i64_range_at_i64_max() {
    assert!(matches!(
        FieldValue::from_unsigned(18_446_744_073_709_551_615),
        FieldValue::Int(i64::MAX)
    ));
}

#[test]
fn saturates_at_the_first_u64_value_past_i64_max() {
    assert!(matches!(
        FieldValue::from_unsigned(9_223_372_036_854_775_808),
        FieldValue::Int(i64::MAX)
    ));
    assert!(matches!(
        FieldValue::from_unsigned(9_223_372_036_854_775_806),
        FieldValue::Int(9_223_372_036_854_775_806)
    ));
}

#[test]
fn objects_are_sorted_and_the_later_entry_wins() {
    let value = FieldValue::object(vec![
        ("b".to_owned(), FieldValue::Int(1)),
        ("a".to_owned(), FieldValue::Int(2)),
        ("b".to_owned(), FieldValue::Int(3)),
    ]);
    let FieldValue::Object(entries) = value else {
        panic!("an object");
    };
    assert_eq!(entries.len(), 2);
    assert_eq!(entries[0].0, "a");
    assert!(matches!(entries[0].1, FieldValue::Int(2)));
    assert_eq!(entries[1].0, "b");
    assert!(matches!(entries[1].1, FieldValue::Int(3)));
}

#[test]
fn edit_distance_computes_the_minimum_operation_count() {
    let cases = [
        ("name", "name", 0),
        ("kitten", "sitting", 3),
        ("", "abc", 3),
        ("abc", "", 3),
        ("nam", "name", 1),
        ("name", "nam", 1),
        ("cat", "hat", 1),
        ("café", "cafe", 1),
    ];
    for (a, b, expected) in cases {
        assert_eq!(edit_distance(a, b), expected);
    }
}

#[test]
fn edit_distance_is_symmetric() {
    for (a, b) in [("kitten", "sitting"), ("abc", ""), ("café", "cafe")] {
        assert_eq!(edit_distance(a, b), edit_distance(b, a));
    }
}

fn closest<'a>(candidates: &[&'a str], input: &str) -> Option<&'a str> {
    closest_match(candidates, input).map(|at| candidates[at])
}

#[test]
fn closest_match_matches_within_the_half_length_threshold() {
    let candidates = ["path", "name", "folder"];
    assert_eq!(closest(&candidates, "nam"), Some("name"));
}

#[test]
fn closest_match_accepts_a_match_exactly_at_the_threshold() {
    let candidates = ["abc"];
    assert_eq!(closest(&candidates, "ab"), Some("abc"));
}

#[test]
fn closest_match_rejects_a_match_past_the_threshold() {
    let candidates = ["name"];
    assert_eq!(closest(&candidates, "na"), None);
}

#[test]
fn closest_match_uses_a_minimum_threshold_of_one_for_empty_input() {
    let candidates = ["a"];
    assert_eq!(closest(&candidates, ""), Some("a"));
}

#[test]
fn closest_match_returns_none_for_an_empty_candidate_list() {
    assert_eq!(closest(&[], "name"), None);
}

#[test]
fn closest_match_breaks_ties_by_iteration_order() {
    let candidates = ["cat", "bat"];
    assert_eq!(closest(&candidates, "mat"), Some("cat"));
}
