//! The normalization pipeline, exercised through `JsonObjects::new`.

use xunmi::{IndexError, InputConfig, InputType, JsonField, JsonNumber, JsonValue, ValueType};

fn plain(t: InputType) -> InputConfig {
    InputConfig::new(t, vec![], vec![])
}

#[test]
fn json_array_keeps_count_and_order() {
    let text = r#"[{"a": "x"}, {"a": "y"}, {"a": "z"}]"#;
    let objs = xunmi::JsonObjects::new(text, &plain(InputType::Json), false).unwrap();
    assert_eq!(objs.len(), 3);
    assert_eq!(
        objs.record_at(0).get("a"),
        Some(&JsonValue::Str("x".to_string()))
    );
    assert_eq!(
        objs.record_at(1).get("a"),
        Some(&JsonValue::Str("y".to_string()))
    );
    assert_eq!(
        objs.record_at(2).get("a"),
        Some(&JsonValue::Str("z".to_string()))
    );
}

#[test]
fn json_single_object_falls_back_to_one_record() {
    let text = r#"{"title": "hello", "count": 3}"#;
    let objs = xunmi::JsonObjects::new(text, &plain(InputType::Json), false).unwrap();
    assert_eq!(objs.len(), 1);
    assert_eq!(
        objs.record_at(0).get("title"),
        Some(&JsonValue::Str("hello".to_string()))
    );
    assert_eq!(
        objs.record_at(0).get("count"),
        Some(&JsonValue::Num(JsonNumber::Unsigned(3)))
    );
}

#[test]
fn json_malformed_reports_parse_error() {
    let text = "this is not json at all";
    let err = xunmi::JsonObjects::new(text, &plain(InputType::Json), false).unwrap_err();
    assert!(matches!(err, IndexError::Parse(_)));
}

#[test]
fn json_array_of_scalars_reports_parse_error() {
    let text = "[1, 2, 3]";
    let err = xunmi::JsonObjects::new(text, &plain(InputType::Json), false).unwrap_err();
    assert!(matches!(err, IndexError::Parse(_)));
}

#[test]
fn yaml_array_parses_records() {
    let text = "- title: one\n- title: two\n";
    let objs = xunmi::JsonObjects::new(text, &plain(InputType::Yaml), false).unwrap();
    assert_eq!(objs.len(), 2);
    assert_eq!(
        objs.record_at(1).get("title"),
        Some(&JsonValue::Str("two".to_string()))
    );
}

#[test]
fn xml_single_record_parses_element_content() {
    // The XML reader wraps each element's character content in a nested
    // record under a "$value" entry.
    let text = "<record><id>7</id><title>hi</title></record>";
    let objs = xunmi::JsonObjects::new(text, &plain(InputType::Xml), false).unwrap();
    assert_eq!(objs.len(), 1);
    assert_eq!(
        objs.record_at(0).get("id"),
        Some(&JsonValue::Obj(vec![JsonField {
            name: "$value".to_string(),
            value: JsonValue::Str("7".to_string()),
        }]))
    );
}

#[test]
fn xml_malformed_reports_parse_error() {
    let text = "<open><unclosed>";
    let err = xunmi::JsonObjects::new(text, &plain(InputType::Xml), false).unwrap_err();
    assert!(matches!(err, IndexError::Parse(_)));
}

#[test]
fn mapping_moves_value_to_new_name() {
    let config = InputConfig::new(
        InputType::Json,
        vec![("old".to_string(), "new".to_string())],
        vec![],
    );
    let text = r#"{"old": "v", "other": "w"}"#;
    let objs = xunmi::JsonObjects::new(text, &config, false).unwrap();
    let rec = objs.record_at(0);
    assert_eq!(rec.get("old"), None);
    assert_eq!(rec.get("new"), Some(&JsonValue::Str("v".to_string())));
    assert_eq!(rec.get("other"), Some(&JsonValue::Str("w".to_string())));
}

#[test]
fn map_then_convert_yields_decimal_text() {
    // A number moves from `a` to `b`, then `b` converts from Number to
    // Text: `a` is gone and `b` holds the decimal text.
    let config = InputConfig::new(
        InputType::Json,
        vec![("a".to_string(), "b".to_string())],
        vec![("b".to_string(), (ValueType::Number, ValueType::Text))],
    );
    let text = r#"{"a": 1024}"#;
    let objs = xunmi::JsonObjects::new(text, &config, false).unwrap();
    let rec = objs.record_at(0);
    assert_eq!(rec.get("a"), None);
    assert_eq!(rec.get("b"), Some(&JsonValue::Str("1024".to_string())));
}

#[test]
fn convert_text_to_number_parses_integers() {
    let config = InputConfig::new(
        InputType::Json,
        vec![],
        vec![("id".to_string(), (ValueType::Text, ValueType::Number))],
    );
    let text = r#"{"id": "1024"}"#;
    let objs = xunmi::JsonObjects::new(text, &config, false).unwrap();
    assert_eq!(
        objs.record_at(0).get("id"),
        Some(&JsonValue::Num(JsonNumber::Unsigned(1024)))
    );
}

#[test]
fn convert_text_to_number_parses_negative_integers() {
    let config = InputConfig::new(
        InputType::Json,
        vec![],
        vec![("n".to_string(), (ValueType::Text, ValueType::Number))],
    );
    let text = r#"{"n": "-12"}"#;
    let objs = xunmi::JsonObjects::new(text, &config, false).unwrap();
    assert_eq!(
        objs.record_at(0).get("n"),
        Some(&JsonValue::Num(JsonNumber::Signed(-12)))
    );
}

#[test]
fn convert_text_to_number_keeps_decimal_text() {
    let config = InputConfig::new(
        InputType::Json,
        vec![],
        vec![("n".to_string(), (ValueType::Text, ValueType::Number))],
    );
    let text = r#"{"n": "3.5"}"#;
    let objs = xunmi::JsonObjects::new(text, &config, false).unwrap();
    assert_eq!(
        objs.record_at(0).get("n"),
        Some(&JsonValue::Num(JsonNumber::Decimal("3.5".to_string())))
    );
}

#[test]
fn convert_non_numeric_text_reports_conversion_error() {
    let config = InputConfig::new(
        InputType::Json,
        vec![],
        vec![("id".to_string(), (ValueType::Text, ValueType::Number))],
    );
    let text = r#"{"id": "not-a-number"}"#;
    let err = xunmi::JsonObjects::new(text, &config, false).unwrap_err();
    assert_eq!(err, IndexError::Conversion("id".to_string()));
}

#[test]
fn convert_type_mismatch_is_a_silent_no_op() {
    // The field holds a number but the conversion declares Text as the
    // source type: the value stays as it was.
    let config = InputConfig::new(
        InputType::Json,
        vec![],
        vec![("n".to_string(), (ValueType::Text, ValueType::Number))],
    );
    let text = r#"{"n": 5}"#;
    let objs = xunmi::JsonObjects::new(text, &config, false).unwrap();
    assert_eq!(
        objs.record_at(0).get("n"),
        Some(&JsonValue::Num(JsonNumber::Unsigned(5)))
    );
}

#[test]
fn convert_absent_field_is_a_no_op() {
    let config = InputConfig::new(
        InputType::Json,
        vec![],
        vec![("absent".to_string(), (ValueType::Text, ValueType::Number))],
    );
    let text = r#"{"present": "x"}"#;
    let objs = xunmi::JsonObjects::new(text, &config, false).unwrap();
    assert_eq!(objs.len(), 1);
    assert_eq!(
        objs.record_at(0).get("present"),
        Some(&JsonValue::Str("x".to_string()))
    );
}

#[test]
fn simplification_folds_whole_input_before_parsing() {
    let text = "{\"title\": \"漢字書寫\"}";
    let objs = xunmi::JsonObjects::new(text, &plain(InputType::Json), true).unwrap();
    assert_eq!(
        objs.record_at(0).get("title"),
        Some(&JsonValue::Str("汉字书写".to_string()))
    );
}

#[test]
fn number_to_text_conversion_handles_negative_values() {
    let config = InputConfig::new(
        InputType::Json,
        vec![],
        vec![("n".to_string(), (ValueType::Number, ValueType::Text))],
    );
    let text = r#"{"n": -42}"#;
    let objs = xunmi::JsonObjects::new(text, &config, false).unwrap();
    assert_eq!(
        objs.record_at(0).get("n"),
        Some(&JsonValue::Str("-42".to_string()))
    );
}

#[test]
fn parse_error_carries_bounded_prefix() {
    let text = "completely wrong input that is rather long and keeps going";
    let err = xunmi::JsonObjects::new(text, &plain(InputType::Json), false).unwrap_err();
    match err {
        IndexError::Parse(p) => {
            assert_eq!(p, "completely wrong inp".to_string());
        }
        other => panic!("expected a parse error, got {:?}", other),
    }
}
