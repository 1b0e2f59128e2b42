//! A small full-text ingestion library: heterogeneous records (JSON, YAML,
//! XML) are normalized against a declarative field mapping and type
//! conversion, resolved against a document schema, and turned into an
//! ordered stream of writer operations for an inverted-index engine.
//!
//! The normalization pipeline, the document builder and the mutation
//! plan are verified; calls into the parsing and text-folding crates
//! stand behind trusted wrappers with explicit contracts.

pub mod config;
pub mod document;
pub mod errors;
pub mod input;
pub mod numeric;
pub mod parse;
pub mod schema;
pub mod state;
pub mod updater;
pub mod value;

pub use config::{IndexConfig, TextLanguage};
pub use input::{Input, InputConfig, InputType, JsonObjects, ValueType, WriterOp};
pub use document::{DocV, Document, TypedValue, TypedValueV};
pub use errors::IndexError;
pub use updater::{prepare_create, prepare_update};
pub use schema::{FieldKind, Schema, SchemaV};
pub use value::{JsonField, JsonNumber, JsonObject, JsonValue, NumberV, ObjV, ValueV};
