//! The producer-side compute of a submission: normalize one call's text,
//! build the documents, and shape the request the coordinator applies.
//! Handing the request to the coordinator's queue is the caller's part.

use vstd::prelude::*;

use crate::errors::IndexError;
use crate::input::{
    build_all, effective_input, normalize_all, record_models, Input, InputConfig, InputV,
    JsonObjects,
};
use crate::schema::Schema;

verus! {

/// Normalize the text and build the insert-only request for it. Success
/// means accepted into the pipeline, not searchable: visibility needs a
/// later commit and reload.
pub fn prepare_create(text: &str, config: &InputConfig, t2s: bool, schema: &Schema) -> (r: Result<
    Input,
    IndexError,
>)
    requires
        schema.wf(),
    ensures
        prepare_post(r, text@, t2s, *config, *schema, false),
{
    let objs = match JsonObjects::new(text, config, t2s) {
        Ok(o) => o,
        Err(e) => {
            return Err(e);
        },
    };
    let docs = match objs.to_docs(schema) {
        Ok(d) => d,
        Err(e) => {
            return Err(e);
        },
    };
    Ok(Input::new_create(docs))
}

/// Normalize the text and build the upsert request for it.
pub fn prepare_update(text: &str, config: &InputConfig, t2s: bool, schema: &Schema) -> (r: Result<
    Input,
    IndexError,
>)
    requires
        schema.wf(),
    ensures
        prepare_post(r, text@, t2s, *config, *schema, true),
{
    let objs = match JsonObjects::new(text, config, t2s) {
        Ok(o) => o,
        Err(e) => {
            return Err(e);
        },
    };
    let docs = match objs.to_docs(schema) {
        Ok(d) => d,
        Err(e) => {
            return Err(e);
        },
    };
    Ok(Input::new_update(docs))
}

/// What a prepared submission means: the documents are exactly the
/// normalized, schema-built records of the text, and each failure names
/// its stage — the parse, the conversion, or the schema resolution that
/// rejected it.
pub open spec fn prepare_post(
    r: Result<Input, IndexError>,
    text: Seq<char>,
    t2s: bool,
    config: InputConfig,
    schema: Schema,
    upsert: bool,
) -> bool {
    let eff = effective_input(text, t2s);
    let t = config.spec_input_type();
    let ms = config.mapping_v();
    let cs = config.conversion_v();
    match r {
        Ok(input) => {
            &&& record_models(eff, t) matches Some(rs)
            &&& normalize_all(rs, ms, cs) matches Ok(outs)
            &&& build_all(outs, schema.dv()) matches Ok(ds)
            &&& input.dv() == if upsert {
                InputV::Update(ds)
            } else {
                InputV::Create(ds)
            }
        },
        Err(e) => {
            ||| (record_models(eff, t) is None && e is Parse)
            ||| {
                &&& record_models(eff, t) matches Some(rs)
                &&& normalize_all(rs, ms, cs) matches Err(k)
                &&& e matches IndexError::Conversion(f) && f@ == k
            }
            ||| {
                &&& record_models(eff, t) matches Some(rs)
                &&& normalize_all(rs, ms, cs) matches Ok(outs)
                &&& build_all(outs, schema.dv()) matches Err(k)
                &&& e matches IndexError::SchemaMismatch(f) && f@ == k
            }
        },
    }
}

} // verus!
