//! Index-wide configuration: storage location, schema, text language and
//! the writer's memory budget.

use vstd::prelude::*;

use crate::schema::Schema;

verus! {

/// How ingested text is treated before indexing. The segmented-script mode
/// may ask for script simplification of every input.
#[derive(Clone, Copy, Debug, PartialEq, Eq, Structural)]
pub enum TextLanguage {
    Western,
    Chinese(bool),
}

impl TextLanguage {
    /// Whether ingested text is folded to the simplified script first.
    pub open spec fn spec_simplifies(self) -> bool {
        self == TextLanguage::Chinese(true)
    }

    /// Whether ingested text is folded to the simplified script first.
    pub fn simplifies(&self) -> (r: bool)
        ensures
            r == self.spec_simplifies(),
    {
        match self {
            TextLanguage::Chinese(apply) => *apply,
            TextLanguage::Western => false,
        }
    }
}

/// Configuration fixed at open time, immutable for the index's lifetime.
#[derive(Debug, PartialEq)]
pub struct IndexConfig {
    /// The storage location; absent means an ephemeral in-memory index.
    pub path: Option<String>,
    /// The document schema.
    pub schema: Schema,
    /// The text language mode.
    pub text_lang: TextLanguage,
    /// The writer's memory budget, in bytes.
    pub writer_memory: usize,
}

} // verus!
