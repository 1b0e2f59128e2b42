//! The document builder and the mutation plan.

use xunmi::{
    Document, FieldKind, IndexError, InputConfig, InputType, JsonObjects, Schema, TextLanguage,
    TypedValue, ValueType, WriterOp,
};

fn schema_id_title_content() -> Schema {
    let mut s = Schema::new();
    assert!(s.add_field("id".to_string(), FieldKind::Uint));
    assert!(s.add_field("title".to_string(), FieldKind::Text));
    assert!(s.add_field("content".to_string(), FieldKind::Text));
    s
}

#[test]
fn schema_rejects_duplicate_names() {
    let mut s = Schema::new();
    assert!(s.add_field("id".to_string(), FieldKind::Uint));
    assert!(!s.add_field("id".to_string(), FieldKind::Text));
    assert_eq!(s.len(), 1);
    assert_eq!(s.lookup("id"), Some(FieldKind::Uint));
    assert_eq!(s.lookup("missing"), None);
}

#[test]
fn build_coerces_values_to_declared_types() {
    let schema = schema_id_title_content();
    let config = InputConfig::new(
        InputType::Json,
        vec![],
        vec![("id".to_string(), (ValueType::Text, ValueType::Number))],
    );
    let text = r#"{"id": "1024", "title": "t", "content": "c"}"#;
    let objs = JsonObjects::new(text, &config, false).unwrap();
    let docs = objs.to_docs(&schema).unwrap();
    assert_eq!(docs.len(), 1);
    // Parsed records keep their keys in the parser's order, which for the
    // JSON format is sorted by name.
    let doc = &docs[0];
    assert_eq!(doc.len(), 3);
    assert_eq!(doc.entry_at(0).0, "content".to_string());
    assert_eq!(doc.entry_at(0).1, TypedValue::Text("c".to_string()));
    assert_eq!(doc.entry_at(1).0, "id".to_string());
    assert_eq!(doc.entry_at(1).1, TypedValue::U64(1024));
    assert_eq!(doc.entry_at(2).1, TypedValue::Text("t".to_string()));
}

#[test]
fn build_rejects_unknown_field() {
    let schema = schema_id_title_content();
    let text = r#"{"nosuch": "x"}"#;
    let objs = JsonObjects::new(text, &InputConfig::new(InputType::Json, vec![], vec![]), false)
        .unwrap();
    let err = objs.to_docs(&schema).unwrap_err();
    assert_eq!(err, IndexError::SchemaMismatch("nosuch".to_string()));
}

#[test]
fn build_rejects_incompatible_value() {
    let schema = schema_id_title_content();
    // Text where the schema declares an unsigned integer.
    let text = r#"{"id": "not converted"}"#;
    let objs = JsonObjects::new(text, &InputConfig::new(InputType::Json, vec![], vec![]), false)
        .unwrap();
    let err = objs.to_docs(&schema).unwrap_err();
    assert_eq!(err, IndexError::SchemaMismatch("id".to_string()));
}

#[test]
fn build_expands_arrays_into_repeated_fields() {
    let mut schema = Schema::new();
    assert!(schema.add_field("tag".to_string(), FieldKind::Text));
    let text = r#"{"tag": ["a", "b"]}"#;
    let objs = JsonObjects::new(text, &InputConfig::new(InputType::Json, vec![], vec![]), false)
        .unwrap();
    let docs = objs.to_docs(&schema).unwrap();
    let doc = &docs[0];
    assert_eq!(doc.len(), 2);
    assert_eq!(doc.entry_at(0).0, "tag".to_string());
    assert_eq!(doc.entry_at(0).1, TypedValue::Text("a".to_string()));
    assert_eq!(doc.entry_at(1).0, "tag".to_string());
    assert_eq!(doc.entry_at(1).1, TypedValue::Text("b".to_string()));
}

#[test]
fn document_id_resolves_single_unsigned_value() {
    let mut d = Document::new();
    d.add("id".to_string(), TypedValue::U64(7));
    d.add("title".to_string(), TypedValue::Text("t".to_string()));
    assert_eq!(d.id_value(), Some(7));

    let mut no_id = Document::new();
    no_id.add("title".to_string(), TypedValue::Text("t".to_string()));
    assert_eq!(no_id.id_value(), None);

    let mut text_id = Document::new();
    text_id.add("id".to_string(), TypedValue::Text("7".to_string()));
    assert_eq!(text_id.id_value(), None);

    let mut two_ids = Document::new();
    two_ids.add("id".to_string(), TypedValue::U64(7));
    two_ids.add("id".to_string(), TypedValue::U64(8));
    assert_eq!(two_ids.id_value(), None);
}

#[test]
fn process_create_plans_one_insert_per_document() {
    let schema = schema_id_title_content();
    let mut d1 = Document::new();
    d1.add("id".to_string(), TypedValue::U64(1));
    let mut d2 = Document::new();
    d2.add("id".to_string(), TypedValue::U64(2));
    let input = xunmi::Input::new_create(vec![d1, d2]);
    let ops = input.process(&schema);
    assert_eq!(ops.len(), 2);
    assert!(matches!(ops[0], WriterOp::AddDoc(_)));
    assert!(matches!(ops[1], WriterOp::AddDoc(_)));
}

#[test]
fn process_update_deletes_by_id_before_insert() {
    let schema = schema_id_title_content();
    let mut d = Document::new();
    d.add("id".to_string(), TypedValue::U64(9));
    let input = xunmi::Input::new_update(vec![d]);
    let ops = input.process(&schema);
    assert_eq!(ops.len(), 2);
    assert!(matches!(ops[0], WriterOp::DeleteTerm(9)));
    assert!(matches!(ops[1], WriterOp::AddDoc(_)));
}

#[test]
fn process_update_without_id_behaves_like_create() {
    // A document that resolves no identifier: the upsert degenerates to a
    // plain insert, the same plan a create request gives.
    let schema = schema_id_title_content();
    let mut a = Document::new();
    a.add("title".to_string(), TypedValue::Text("t".to_string()));
    let mut b = Document::new();
    b.add("title".to_string(), TypedValue::Text("t".to_string()));
    let update_ops = xunmi::Input::new_update(vec![a]).process(&schema);
    let create_ops = xunmi::Input::new_create(vec![b]).process(&schema);
    assert_eq!(update_ops, create_ops);
    assert_eq!(update_ops.len(), 1);
}

#[test]
fn process_update_without_id_field_in_schema_only_inserts() {
    let mut schema = Schema::new();
    assert!(schema.add_field("title".to_string(), FieldKind::Text));
    let mut d = Document::new();
    d.add("id".to_string(), TypedValue::U64(5));
    let ops = xunmi::Input::new_update(vec![d]).process(&schema);
    assert_eq!(ops.len(), 1);
    assert!(matches!(ops[0], WriterOp::AddDoc(_)));
}

#[test]
fn process_commit_and_clear_plan_single_operations() {
    let schema = schema_id_title_content();
    let commit_ops = xunmi::Input::new_commit().process(&schema);
    assert_eq!(commit_ops, vec![WriterOp::Commit]);
    let clear_ops = xunmi::Input::new_clear().process(&schema);
    assert_eq!(clear_ops, vec![WriterOp::Clear]);
}

#[test]
fn resolve_fields_drops_unknown_names() {
    let schema = schema_id_title_content();
    let names = vec![
        "title".to_string(),
        "nosuch".to_string(),
        "content".to_string(),
    ];
    let positions = schema.resolve_fields(&names);
    assert_eq!(positions, vec![1, 2]);
}

#[test]
fn prepare_create_builds_the_whole_request() {
    let schema = schema_id_title_content();
    let config = InputConfig::new(
        InputType::Json,
        vec![],
        vec![("id".to_string(), (ValueType::Text, ValueType::Number))],
    );
    let text = r#"{"id": "3", "title": "t", "content": "c"}"#;
    let input = xunmi::prepare_create(text, &config, false, &schema).unwrap();
    let ops = input.process(&schema);
    assert_eq!(ops.len(), 1);
    assert!(matches!(ops[0], WriterOp::AddDoc(_)));

    let bad = xunmi::prepare_create("not json", &config, false, &schema).unwrap_err();
    assert!(matches!(bad, IndexError::Parse(_)));
}

#[test]
fn build_coerces_signed_fields_from_integers() {
    let mut schema = Schema::new();
    assert!(schema.add_field("n".to_string(), FieldKind::Int));
    let text = r#"[{"n": -5}, {"n": 5}]"#;
    let objs = JsonObjects::new(text, &InputConfig::new(InputType::Json, vec![], vec![]), false)
        .unwrap();
    let docs = objs.to_docs(&schema).unwrap();
    assert_eq!(docs[0].entry_at(0).1, TypedValue::I64(-5));
    assert_eq!(docs[1].entry_at(0).1, TypedValue::I64(5));
}

#[test]
fn build_rejects_signed_overflow_and_negative_unsigned() {
    let mut schema = Schema::new();
    assert!(schema.add_field("n".to_string(), FieldKind::Int));
    let config = InputConfig::new(InputType::Json, vec![], vec![]);
    // Larger than any signed 64-bit value.
    let objs = JsonObjects::new(r#"{"n": 9223372036854775808}"#, &config, false).unwrap();
    assert_eq!(
        objs.to_docs(&schema).unwrap_err(),
        IndexError::SchemaMismatch("n".to_string())
    );

    let mut uschema = Schema::new();
    assert!(uschema.add_field("id".to_string(), FieldKind::Uint));
    let objs = JsonObjects::new(r#"{"id": -1}"#, &config, false).unwrap();
    assert_eq!(
        objs.to_docs(&uschema).unwrap_err(),
        IndexError::SchemaMismatch("id".to_string())
    );
}

#[test]
fn text_language_declares_when_to_simplify() {
    assert!(TextLanguage::Chinese(true).simplifies());
    assert!(!TextLanguage::Chinese(false).simplifies());
    assert!(!TextLanguage::Western.simplifies());
}
