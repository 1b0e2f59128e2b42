//! End-to-end scenarios: the library's normalized documents and writer
//! plans applied to a real in-memory index engine.

use tantivy::collector::TopDocs;
use tantivy::query::QueryParser;
use tantivy::schema::document::Document as _;
use tantivy::schema::{OwnedValue, Schema as TSchema, INDEXED, STORED, TEXT};
use tantivy::{Index, IndexWriter, TantivyDocument, Term};

use xunmi::{
    Document, FieldKind, InputConfig, InputType, Schema, TypedValue, ValueType, WriterOp,
};

fn lib_schema() -> Schema {
    let mut s = Schema::new();
    assert!(s.add_field("id".to_string(), FieldKind::Uint));
    assert!(s.add_field("title".to_string(), FieldKind::Text));
    assert!(s.add_field("content".to_string(), FieldKind::Text));
    s
}

fn engine_schema() -> TSchema {
    let mut b = TSchema::builder();
    b.add_u64_field("id", INDEXED | STORED);
    b.add_text_field("title", TEXT | STORED);
    b.add_text_field("content", TEXT | STORED);
    b.build()
}

fn to_engine_doc(doc: &Document, schema: &TSchema) -> TantivyDocument {
    let mut out = TantivyDocument::default();
    let mut i = 0;
    while i < doc.len() {
        let entry = doc.entry_at(i);
        let field = schema.get_field(entry.0.as_str()).unwrap();
        match &entry.1 {
            TypedValue::U64(u) => out.add_u64(field, *u),
            TypedValue::I64(v) => out.add_i64(field, *v),
            TypedValue::Text(t) => out.add_text(field, t.as_str()),
        }
        i += 1;
    }
    out
}

fn apply(writer: &mut IndexWriter, schema: &TSchema, ops: Vec<WriterOp>) {
    for op in ops {
        match op {
            WriterOp::AddDoc(d) => {
                writer.add_document(to_engine_doc(&d, schema)).unwrap();
            }
            WriterOp::DeleteTerm(id) => {
                let field = schema.get_field("id").unwrap();
                writer.delete_term(Term::from_field_u64(field, id));
            }
            WriterOp::Commit => {
                writer.commit().unwrap();
            }
            WriterOp::Clear => {
                writer.delete_all_documents().unwrap();
            }
        }
    }
}

#[test]
fn index_convert_commit_and_search() {
    // One JSON record whose "id" arrives as text: after conversion,
    // commit and reload, a search on the content finds exactly that
    // record and its id decodes to the converted number.
    let lib = lib_schema();
    let engine = engine_schema();
    let index = Index::create_in_ram(engine.clone());
    let mut writer: IndexWriter = index.writer(15_000_000).unwrap();
    let reader = index.reader().unwrap();

    let config = InputConfig::new(
        InputType::Json,
        vec![],
        vec![("id".to_string(), (ValueType::Text, ValueType::Number))],
    );
    let text = r#"{"id": "1024", "title": "t", "content": "c"}"#;
    let input = xunmi::prepare_create(text, &config, false, &lib).unwrap();
    apply(&mut writer, &engine, input.process(&lib));
    apply(&mut writer, &engine, xunmi::Input::new_commit().process(&lib));
    reader.reload().unwrap();

    let searcher = reader.searcher();
    assert_eq!(searcher.num_docs(), 1);

    let content = engine.get_field("content").unwrap();
    let parser = QueryParser::for_index(&index, vec![content]);
    let query = parser.parse_query("c").unwrap();
    let hits = searcher
        .search(&query, &TopDocs::with_limit(5).and_offset(0).order_by_score())
        .unwrap();
    assert_eq!(hits.len(), 1);
    let doc: TantivyDocument = searcher.doc(hits[0].1).unwrap();
    let named = doc.to_named_doc(&engine);
    assert_eq!(named.0.get("id").unwrap(), &vec![OwnedValue::U64(1024)]);
}

#[test]
fn upsert_twice_keeps_only_latest_content() {
    // The same id submitted twice with different content: after commit
    // and reload exactly one document with that id is visible, holding
    // the second content.
    let lib = lib_schema();
    let engine = engine_schema();
    let index = Index::create_in_ram(engine.clone());
    let mut writer: IndexWriter = index.writer(15_000_000).unwrap();
    let reader = index.reader().unwrap();

    let config = InputConfig::new(
        InputType::Json,
        vec![],
        vec![("id".to_string(), (ValueType::Text, ValueType::Number))],
    );
    let first = r#"{"id": "7", "title": "first", "content": "old words"}"#;
    let second = r#"{"id": "7", "title": "second", "content": "new words"}"#;
    let up1 = xunmi::prepare_update(first, &config, false, &lib).unwrap();
    apply(&mut writer, &engine, up1.process(&lib));
    let up2 = xunmi::prepare_update(second, &config, false, &lib).unwrap();
    apply(&mut writer, &engine, up2.process(&lib));
    apply(&mut writer, &engine, xunmi::Input::new_commit().process(&lib));
    reader.reload().unwrap();

    let searcher = reader.searcher();
    assert_eq!(searcher.num_docs(), 1);
    let title = engine.get_field("title").unwrap();
    let parser = QueryParser::for_index(&index, vec![title]);
    let hits = searcher
        .search(&parser.parse_query("second").unwrap(), &TopDocs::with_limit(5).order_by_score())
        .unwrap();
    assert_eq!(hits.len(), 1);
    let doc: TantivyDocument = searcher.doc(hits[0].1).unwrap();
    let named = doc.to_named_doc(&engine);
    assert_eq!(named.0.get("id").unwrap(), &vec![OwnedValue::U64(7)]);
}

#[test]
fn update_without_resolvable_id_inserts_like_create() {
    // Two updates without a resolvable id do not replace each other: both
    // documents stay, exactly as two creates would.
    let lib = lib_schema();
    let engine = engine_schema();
    let index = Index::create_in_ram(engine.clone());
    let mut writer: IndexWriter = index.writer(15_000_000).unwrap();
    let reader = index.reader().unwrap();

    let config = InputConfig::new(InputType::Json, vec![], vec![]);
    let text = r#"{"title": "same", "content": "body"}"#;
    let up1 = xunmi::prepare_update(text, &config, false, &lib).unwrap();
    apply(&mut writer, &engine, up1.process(&lib));
    let up2 = xunmi::prepare_update(text, &config, false, &lib).unwrap();
    apply(&mut writer, &engine, up2.process(&lib));
    apply(&mut writer, &engine, xunmi::Input::new_commit().process(&lib));
    reader.reload().unwrap();
    assert_eq!(reader.searcher().num_docs(), 2);
}

#[test]
fn reload_without_commit_is_idempotent() {
    let lib = lib_schema();
    let engine = engine_schema();
    let index = Index::create_in_ram(engine.clone());
    let mut writer: IndexWriter = index.writer(15_000_000).unwrap();
    let reader = index.reader().unwrap();

    let config = InputConfig::new(InputType::Json, vec![], vec![]);
    let text = r#"{"title": "t", "content": "c"}"#;
    let input = xunmi::prepare_create(text, &config, false, &lib).unwrap();
    apply(&mut writer, &engine, input.process(&lib));
    apply(&mut writer, &engine, xunmi::Input::new_commit().process(&lib));

    reader.reload().unwrap();
    let first = reader.searcher().num_docs();
    reader.reload().unwrap();
    let second = reader.searcher().num_docs();
    assert_eq!(first, 1);
    assert_eq!(first, second);
}

#[test]
fn clear_then_commit_then_reload_empties_the_index() {
    let lib = lib_schema();
    let engine = engine_schema();
    let index = Index::create_in_ram(engine.clone());
    let mut writer: IndexWriter = index.writer(15_000_000).unwrap();
    let reader = index.reader().unwrap();

    let config = InputConfig::new(InputType::Json, vec![], vec![]);
    let text = r#"[{"title": "a", "content": "x"}, {"title": "b", "content": "y"}]"#;
    let input = xunmi::prepare_create(text, &config, false, &lib).unwrap();
    apply(&mut writer, &engine, input.process(&lib));
    apply(&mut writer, &engine, xunmi::Input::new_commit().process(&lib));
    reader.reload().unwrap();
    assert_eq!(reader.searcher().num_docs(), 2);

    apply(&mut writer, &engine, xunmi::Input::new_clear().process(&lib));
    apply(&mut writer, &engine, xunmi::Input::new_commit().process(&lib));
    reader.reload().unwrap();
    assert_eq!(reader.searcher().num_docs(), 0);
}
