//! The failures the library reports, one variant per failure class.

use vstd::prelude::*;

verus! {

/// Every error the ingestion and query paths can surface.
#[derive(Debug, PartialEq)]
pub enum IndexError {
    /// The input text is not valid in the declared format; carries a
    /// bounded prefix of the offending input.
    Parse(String),
    /// A declared type conversion found text that is not numeric; carries
    /// the field name.
    Conversion(String),
    /// A record field is absent from the schema, or its value does not fit
    /// the declared field type; carries the field name.
    SchemaMismatch(String),
    /// A submission arrived after the coordinator shut down.
    ChannelClosed,
    /// The storage engine failed underneath the coordinator.
    Storage(String),
    /// The query text could not be parsed.
    QueryParse(String),
}

} // verus!
