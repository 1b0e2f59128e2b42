//! The record normalization pipeline: raw text in a declared format is
//! parsed into records, a declared field mapping is applied, then the
//! declared type conversions; the result feeds the document builder.

use vstd::prelude::*;

use crate::document::{doc_id, DocV, Document, TypedValue, TypedValueV};
use crate::errors::IndexError;
use crate::schema::{sch_has, sch_kind, FieldKind, Schema, SchemaV};
use crate::numeric::{num_text, number_to_string};
use crate::parse::{
    json_value_of, json_values_of, num_from_text, number_from_text, parse_json_value,
    parse_json_values, parse_xml_value, parse_xml_values, parse_yaml_value, parse_yaml_values,
    simplified, simplify_text, to_value, value_model, values_model, xml_value_of, xml_values_of,
    yaml_value_of, yaml_values_of,
};
use crate::value::{
    dv_entries, obj_get, obj_has_key, obj_insert, obj_remove, obj_wf, value_wf, JsonField,
    JsonNumber, JsonObject, JsonValue, NumberV, ObjV, ValueV,
};

verus! {

/// The formats an ingestion call can declare.
#[derive(Clone, Copy, Debug, PartialEq, Eq, Structural)]
pub enum InputType {
    Json,
    Yaml,
    Xml,
}

/// The value types a declared conversion can name.
#[derive(Clone, Copy, Debug, PartialEq, Eq, Structural)]
pub enum ValueType {
    Text,
    Number,
}

/// Per-call ingestion configuration: the declared format, a field rename
/// mapping, and per-field type conversions. Both lists apply in the order
/// given.
#[derive(Debug, PartialEq)]
pub struct InputConfig {
    input_type: InputType,
    mapping: Vec<(String, String)>,
    conversion: Vec<(String, (ValueType, ValueType))>,
}

impl InputConfig {
    pub closed spec fn spec_input_type(self) -> InputType {
        self.input_type
    }

    /// The rename pairs, source name to target name, in declared order.
    pub closed spec fn mapping_v(self) -> Seq<(Seq<char>, Seq<char>)> {
        self.mapping@.map_values(map_pairs_fn())
    }

    /// The conversions, field name with source and target type, in
    /// declared order.
    pub closed spec fn conversion_v(self) -> Seq<(Seq<char>, ValueType, ValueType)> {
        self.conversion@.map_values(conv_triples_fn())
    }

    pub fn new(
        input_type: InputType,
        mapping: Vec<(String, String)>,
        conversion: Vec<(String, (ValueType, ValueType))>,
    ) -> (r: InputConfig)
        ensures
            r.spec_input_type() == input_type,
            r.mapping_v() == mapping@.map_values(map_pairs_fn()),
            r.conversion_v() == conversion@.map_values(conv_triples_fn()),
    {
        InputConfig { input_type, mapping, conversion }
    }

    pub fn input_type(&self) -> (r: InputType)
        ensures
            r == self.spec_input_type(),
    {
        self.input_type
    }
}

/// The view of one rename pair.
pub open spec fn map_pairs_fn() -> spec_fn((String, String)) -> (Seq<char>, Seq<char>) {
    |p: (String, String)| (p.0@, p.1@)
}

/// The view of one conversion entry.
pub open spec fn conv_triples_fn() -> spec_fn((String, (ValueType, ValueType))) -> (
    Seq<char>,
    ValueType,
    ValueType,
) {
    |p: (String, (ValueType, ValueType))| (p.0@, p.1.0, p.1.1)
}

/// One rename applied to a record: where the source name occurs, its value
/// moves under the target name (replacing any value already there).
pub open spec fn map_step(o: ObjV, m: (Seq<char>, Seq<char>)) -> ObjV {
    if obj_has_key(o, m.0) {
        obj_insert(obj_remove(o, m.0), m.1, obj_get(o, m.0)->Some_0)
    } else {
        o
    }
}

/// The whole mapping applied, in declared order.
pub open spec fn apply_maps(o: ObjV, ms: Seq<(Seq<char>, Seq<char>)>) -> ObjV
    decreases ms.len(),
{
    if ms.len() == 0 {
        o
    } else {
        map_step(apply_maps(o, ms.drop_last()), ms.last())
    }
}

/// One declared conversion applied to a record. A field absent from the
/// record, or a value whose representation does not match the declared
/// source type, is left untouched; numeric conversion of non-numeric text
/// names the failing field.
pub open spec fn conv_step(o: ObjV, c: (Seq<char>, ValueType, ValueType)) -> Result<
    ObjV,
    Seq<char>,
> {
    if !obj_has_key(o, c.0) {
        Ok(o)
    } else {
        let v = obj_get(o, c.0)->Some_0;
        if v is Num && c.1 == ValueType::Number && c.2 == ValueType::Text {
            Ok(obj_insert(o, c.0, ValueV::Str(num_text(v->Num_0))))
        } else if v is Str && c.1 == ValueType::Text && c.2 == ValueType::Number {
            match num_from_text(v->Str_0) {
                Some(n) => Ok(obj_insert(o, c.0, ValueV::Num(n))),
                None => Err(c.0),
            }
        } else {
            Ok(o)
        }
    }
}

/// All declared conversions applied, in declared order; the first failure
/// wins.
pub open spec fn apply_convs(o: ObjV, cs: Seq<(Seq<char>, ValueType, ValueType)>) -> Result<
    ObjV,
    Seq<char>,
>
    decreases cs.len(),
{
    if cs.len() == 0 {
        Ok(o)
    } else {
        match apply_convs(o, cs.drop_last()) {
            Ok(o2) => conv_step(o2, cs.last()),
            Err(k) => Err(k),
        }
    }
}

/// One record normalized: mapping first, then conversions.
pub open spec fn normalize_model(
    o: ObjV,
    ms: Seq<(Seq<char>, Seq<char>)>,
    cs: Seq<(Seq<char>, ValueType, ValueType)>,
) -> Result<ObjV, Seq<char>> {
    apply_convs(apply_maps(o, ms), cs)
}

/// Every record normalized, in order; the earliest failure wins.
pub open spec fn normalize_all(
    rs: Seq<ObjV>,
    ms: Seq<(Seq<char>, Seq<char>)>,
    cs: Seq<(Seq<char>, ValueType, ValueType)>,
) -> Result<Seq<ObjV>, Seq<char>>
    decreases rs.len(),
{
    if rs.len() == 0 {
        Ok(Seq::empty())
    } else {
        match normalize_all(rs.drop_last(), ms, cs) {
            Ok(outs) => match normalize_model(rs.last(), ms, cs) {
                Ok(o) => Ok(outs.push(o)),
                Err(k) => Err(k),
            },
            Err(k) => Err(k),
        }
    }
}

/// Normalizing keeps the record count and the order: there are exactly
/// as many outputs as inputs, and the i-th output is the normalization
/// of the i-th input record.
pub proof fn lemma_normalize_all_len(
    rs: Seq<ObjV>,
    ms: Seq<(Seq<char>, Seq<char>)>,
    cs: Seq<(Seq<char>, ValueType, ValueType)>,
)
    requires
        normalize_all(rs, ms, cs) is Ok,
    ensures
        normalize_all(rs, ms, cs)->Ok_0.len() == rs.len(),
        forall|i: int|
            0 <= i < rs.len() ==> (normalize_model(#[trigger] rs[i], ms, cs) matches Ok(o)
                && normalize_all(rs, ms, cs)->Ok_0[i] == o),
    decreases rs.len(),
{
    if rs.len() > 0 {
        lemma_normalize_all_len(rs.drop_last(), ms, cs);
        assert forall|i: int| 0 <= i < rs.len() implies normalize_model(
            #[trigger] rs[i],
            ms,
            cs,
        ) matches Ok(o) && normalize_all(rs, ms, cs)->Ok_0[i] == o by {
            if i < rs.len() - 1 {
                assert(rs.drop_last()[i] == rs[i]);
            }
        }
    }
}

/// What parsing the text as an array of values yields in each format.
pub open spec fn parsed_values(s: Seq<char>, t: InputType) -> Option<Seq<ValueV>> {
    match t {
        InputType::Json => json_values_of(s),
        InputType::Yaml => yaml_values_of(s),
        InputType::Xml => xml_values_of(s),
    }
}

/// What parsing the text as one value yields in each format.
pub open spec fn parsed_value(s: Seq<char>, t: InputType) -> Option<ValueV> {
    match t {
        InputType::Json => json_value_of(s),
        InputType::Yaml => yaml_value_of(s),
        InputType::Xml => xml_value_of(s),
    }
}

pub open spec fn all_records(vs: Seq<ValueV>) -> bool {
    forall|i: int| 0 <= i < vs.len() ==> vs[i] is Obj
}

pub open spec fn records_of(vs: Seq<ValueV>) -> Seq<ObjV> {
    vs.map_values(|v: ValueV| v->Obj_0)
}

/// The records the text denotes: an array of records where the array
/// parse succeeds and every element is a record; otherwise the whole text
/// as exactly one record, where that parse yields one; otherwise nothing.
pub open spec fn record_models(s: Seq<char>, t: InputType) -> Option<Seq<ObjV>> {
    match parsed_values(s, t) {
        Some(vs) => if all_records(vs) {
            Some(records_of(vs))
        } else {
            record_model_single(s, t)
        },
        None => record_model_single(s, t),
    }
}

pub open spec fn record_model_single(s: Seq<char>, t: InputType) -> Option<Seq<ObjV>> {
    match parsed_value(s, t) {
        Some(v) => if v is Obj {
            Some(seq![v->Obj_0])
        } else {
            None
        },
        None => None,
    }
}

/// The text the pipeline actually parses: the input, folded to the
/// simplified script when asked.
pub open spec fn effective_input(s: Seq<char>, t2s: bool) -> Seq<char> {
    if t2s {
        simplified(s)
    } else {
        s
    }
}

/// Apply the rename mapping to one record, pair by pair in declared order.
fn apply_mapping(obj: &mut JsonObject, mapping: &Vec<(String, String)>)
    requires
        old(obj).wf(),
    ensures
        final(obj).wf(),
        final(obj).dv() == apply_maps(old(obj).dv(), mapping@.map_values(map_pairs_fn())),
{
    let ghost mv = mapping@.map_values(map_pairs_fn());
    let ghost o0 = obj.dv();
    let n = mapping.len();
    let mut i: usize = 0;
    proof {
        assert(mv.take(0) =~= Seq::<(Seq<char>, Seq<char>)>::empty());
    }
    while i < n
        invariant
            n == mapping@.len(),
            n == mv.len(),
            mv == mapping@.map_values(map_pairs_fn()),
            i <= n,
            obj.wf(),
            obj.dv() == apply_maps(o0, mv.take(i as int)),
        decreases n - i,
    {
        let ghost before = obj.dv();
        let pair = &mapping[i];
        match obj.remove(pair.0.as_str()) {
            Some(v) => {
                obj.insert(pair.1.clone(), v);
            },
            None => {
                proof {
                    crate::value::lemma_obj_remove_absent(before, pair.0@);
                }
            },
        }
        proof {
            assert(mv.take(i + 1).drop_last() =~= mv.take(i as int));
            assert(mv.take(i + 1).last() == mv[i as int]);
            assert(mv[i as int] == (pair.0@, pair.1@));
            assert(obj.dv() == map_step(before, mv[i as int]));
        }
        i = i + 1;
    }
    proof {
        assert(mv.take(n as int) =~= mv);
    }
}

/// Apply the declared conversions to one record, in declared order; the
/// first non-numeric text under a `Text` to `Number` conversion names the
/// failing field.
fn apply_conversion(obj: &mut JsonObject, conversion: &Vec<(String, (ValueType, ValueType))>) -> (r:
    Result<(), String>)
    requires
        old(obj).wf(),
    ensures
        final(obj).wf(),
        ({
            let cv = conversion@.map_values(conv_triples_fn());
            match r {
                Ok(_) => apply_convs(old(obj).dv(), cv) == Ok::<ObjV, Seq<char>>(final(obj).dv()),
                Err(f) => apply_convs(old(obj).dv(), cv) == Err::<ObjV, Seq<char>>(f@),
            }
        }),
{
    let ghost cv = conversion@.map_values(conv_triples_fn());
    let ghost o0 = obj.dv();
    let n = conversion.len();
    let mut i: usize = 0;
    proof {
        assert(cv.take(0) =~= Seq::<(Seq<char>, ValueType, ValueType)>::empty());
    }
    while i < n
        invariant
            n == conversion@.len(),
            n == cv.len(),
            cv == conversion@.map_values(conv_triples_fn()),
            i <= n,
            obj.wf(),
            o0 == old(obj).dv(),
            apply_convs(o0, cv.take(i as int)) == Ok::<ObjV, Seq<char>>(obj.dv()),
        decreases n - i,
    {
        let ghost before = obj.dv();
        proof {
            assert(cv.take(i + 1).drop_last() =~= cv.take(i as int));
            assert(cv.take(i + 1).last() == cv[i as int]);
        }
        let entry = &conversion[i];
        let field = &entry.0;
        let t1 = entry.1.0;
        let t2 = entry.1.1;
        // Decide the replacement first, so the borrow of the record ends
        // before the record changes: Ok(Some(v)) stores v, Ok(None) leaves
        // the record as it is, Err(()) reports the failing field.
        let step: Result<Option<JsonValue>, ()> = match obj.get(field.as_str()) {
            None => Ok(None),
            Some(JsonValue::Num(num)) => {
                if t1 == ValueType::Number && t2 == ValueType::Text {
                    Ok(Some(JsonValue::Str(number_to_string(num))))
                } else {
                    Ok(None)
                }
            },
            Some(JsonValue::Str(text)) => {
                if t1 == ValueType::Text && t2 == ValueType::Number {
                    match number_from_text(text.as_str()) {
                        Some(num) => Ok(Some(JsonValue::Num(num))),
                        None => Err(()),
                    }
                } else {
                    Ok(None)
                }
            },
            Some(_) => Ok(None),
        };
        match step {
            Ok(Some(v)) => {
                obj.insert(field.clone(), v);
                proof {
                    assert(conv_step(before, cv[i as int]) == Ok::<ObjV, Seq<char>>(obj.dv()));
                }
            },
            Ok(None) => {
                proof {
                    assert(conv_step(before, cv[i as int]) == Ok::<ObjV, Seq<char>>(obj.dv()));
                }
            },
            Err(_) => {
                proof {
                    assert(conv_step(before, cv[i as int]) == Err::<ObjV, Seq<char>>(field@));
                    assert(apply_convs(o0, cv.take(i + 1)) == Err::<ObjV, Seq<char>>(field@));
                    lemma_apply_convs_err_extends(o0, cv, i + 1);
                }
                return Err(field.clone());
            },
        }
        i = i + 1;
    }
    proof {
        assert(cv.take(n as int) =~= cv);
    }
    Ok(())
}

/// Once the conversions fail on a prefix, more conversions keep the same
/// failure.
proof fn lemma_apply_convs_err_extends(
    o: ObjV,
    cs: Seq<(Seq<char>, ValueType, ValueType)>,
    i: int,
)
    requires
        0 <= i <= cs.len(),
        apply_convs(o, cs.take(i)) is Err,
    ensures
        apply_convs(o, cs) == apply_convs(o, cs.take(i)),
    decreases cs.len() - i,
{
    if i < cs.len() {
        assert(cs.take(i + 1).drop_last() =~= cs.take(i));
        lemma_apply_convs_err_extends(o, cs, i + 1);
    } else {
        assert(cs.take(i) =~= cs);
    }
}

/// The model of one record list entry.
pub open spec fn obj_dv_fn() -> spec_fn(JsonObject) -> ObjV {
    |o: JsonObject| o.dv()
}

/// Once normalization fails on a prefix of the records, the rest keep the
/// same failure.
proof fn lemma_normalize_all_err_extends(
    rs: Seq<ObjV>,
    ms: Seq<(Seq<char>, Seq<char>)>,
    cs: Seq<(Seq<char>, ValueType, ValueType)>,
    i: int,
)
    requires
        0 <= i <= rs.len(),
        normalize_all(rs.take(i), ms, cs) is Err,
    ensures
        normalize_all(rs, ms, cs) == normalize_all(rs.take(i), ms, cs),
    decreases rs.len() - i,
{
    if i < rs.len() {
        assert(rs.take(i + 1).drop_last() =~= rs.take(i));
        lemma_normalize_all_err_extends(rs, ms, cs, i + 1);
    } else {
        assert(rs.take(i) =~= rs);
    }
}

/// Rebuild a record from its parsed fields, in order.
fn record_from_entries(entries: Vec<JsonField>) -> (r: JsonObject)
    requires
        obj_wf(dv_entries(entries@)),
    ensures
        r.wf(),
        r.dv() == dv_entries(entries@),
{
    let ghost full = entries@;
    let mut rest = entries;
    let mut obj = JsonObject::new();
    proof {
        crate::value::lemma_dv_entries_len(full);
        assert(dv_entries(full.take(0)) =~= Seq::<(Seq<char>, ValueV)>::empty());
    }
    while rest.len() > 0
        invariant
            obj.wf(),
            obj_wf(dv_entries(full)),
            obj.dv().len() + rest@.len() == full.len(),
            rest@ == full.skip(obj.dv().len() as int),
            obj.dv() == dv_entries(full.take(obj.dv().len() as int)),
        decreases rest@.len(),
    {
        let ghost i = obj.dv().len() as int;
        let f = rest.remove(0);
        proof {
            assert(f == full[i]);
            assert(rest@ =~= full.skip(i + 1));
            crate::value::lemma_dv_entries_len(full.take(i));
            assert forall|j: int| 0 <= j < i implies obj.dv()[j].0 != f.name@ by {
                crate::value::lemma_dv_entries_index(full.take(i), j);
                crate::value::lemma_dv_entries_index(full, j);
                crate::value::lemma_dv_entries_index(full, i);
                assert(dv_entries(full)[j].0 != dv_entries(full)[i].0);
            }
            if obj_has_key(obj.dv(), f.name@) {
                let j = crate::value::obj_key_at(obj.dv(), f.name@);
                assert(obj.dv()[j].0 == f.name@);
            }
        }
        let ghost before = obj.dv();
        obj.insert(f.name, f.value);
        proof {
            assert(obj.dv() == before.push((full[i].name@, full[i].value.dv())));
            assert(full.take(i + 1).drop_last() =~= full.take(i));
            assert(full.take(i + 1).last() == full[i]);
            assert(obj.dv() == dv_entries(full.take(i + 1)));
            assert(obj.dv().len() == i + 1) by {
                crate::value::lemma_dv_entries_len(full.take(i + 1));
            }
        }
    }
    proof {
        assert(full.take(full.len() as int) =~= full);
    }
    obj
}

/// Convert parsed values into the library's form, element by element.
fn convert_values(vals: Vec<serde_json::Value>) -> (r: Vec<JsonValue>)
    ensures
        r@.len() == vals@.len(),
        forall|i: int|
            0 <= i < r@.len() ==> (#[trigger] r@[i].dv()) == values_model(vals@)[i] && value_wf(
                r@[i].dv(),
            ),
{
    let ghost full = vals@;
    let mut rest = vals;
    let mut out: Vec<JsonValue> = Vec::new();
    while rest.len() > 0
        invariant
            out@.len() + rest@.len() == full.len(),
            rest@ == full.skip(out@.len() as int),
            forall|i: int|
                0 <= i < out@.len() ==> (#[trigger] out@[i].dv()) == value_model(full[i])
                    && value_wf(out@[i].dv()),
        decreases rest@.len(),
    {
        let ghost k = out@.len() as int;
        let v = rest.remove(0);
        proof {
            assert(v == full[k]);
            assert(rest@ =~= full.skip(k + 1));
        }
        let jv = to_value(v);
        out.push(jv);
    }
    proof {
        assert forall|i: int| 0 <= i < out@.len() implies (#[trigger] out@[i].dv())
            == values_model(full)[i] && value_wf(out@[i].dv()) by {
            assert(values_model(full)[i] == value_model(full[i]));
        }
    }
    out
}

/// Keep the values that are records; report the first that is not.
fn records_from_values(jvals: Vec<JsonValue>) -> (r: Option<Vec<JsonObject>>)
    requires
        forall|i: int| 0 <= i < jvals@.len() ==> value_wf(#[trigger] jvals@[i].dv()),
    ensures
        match r {
            Some(objs) => objs@.len() == jvals@.len() && forall|i: int|
                0 <= i < objs@.len() ==> (#[trigger] jvals@[i].dv()) is Obj && objs@[i].dv()
                    == jvals@[i].dv()->Obj_0 && objs@[i].wf(),
            None => exists|i: int| 0 <= i < jvals@.len() && !((#[trigger] jvals@[i].dv()) is Obj),
        },
{
    let ghost full = jvals@;
    let mut rest = jvals;
    let mut out: Vec<JsonObject> = Vec::new();
    while rest.len() > 0
        invariant
            full == jvals@,
            out@.len() + rest@.len() == full.len(),
            rest@ == full.skip(out@.len() as int),
            forall|i: int| 0 <= i < full.len() ==> value_wf(#[trigger] full[i].dv()),
            forall|i: int|
                0 <= i < out@.len() ==> (#[trigger] full[i].dv()) is Obj && out@[i].dv()
                    == full[i].dv()->Obj_0 && out@[i].wf(),
        decreases rest@.len(),
    {
        let ghost k = out@.len() as int;
        let jv = rest.remove(0);
        proof {
            assert(jv == full[k]);
            assert(rest@ =~= full.skip(k + 1));
        }
        match jv {
            JsonValue::Obj(entries) => {
                proof {
                    assert(full[k].dv() == ValueV::Obj(dv_entries(entries@)));
                }
                let o = record_from_entries(entries);
                out.push(o);
            },
            _ => {
                proof {
                    assert(!(jv is Obj));
                    assert(!(jv.dv() is Obj));
                    assert(!((jvals@[k].dv()) is Obj));
                }
                return None;
            },
        }
    }
    Some(out)
}

/// A bounded prefix of the offending input, for diagnostics.
fn error_prefix(s: &str) -> (r: String)
    ensures
        r@ == s@.take(if s@.len() < 20 { s@.len() as int } else { 20 }),
{
    let n = s.unicode_len();
    let end: usize = if n < 20 {
        n
    } else {
        20
    };
    s.substring_char(0, end).to_owned()
}

/// Convert a parsed array into records, where every element is one.
fn records_from_parsed(vals: Vec<serde_json::Value>) -> (r: Option<Vec<JsonObject>>)
    ensures
        match r {
            Some(objs) => all_records(values_model(vals@)) && objs@.map_values(obj_dv_fn())
                == records_of(values_model(vals@)) && forall|i: int|
                0 <= i < objs@.len() ==> obj_wf(#[trigger] objs@[i].dv()),
            None => !all_records(values_model(vals@)),
        },
{
    let ghost vm = values_model(vals@);
    let jvals = convert_values(vals);
    let res = records_from_values(jvals);
    proof {
        assert(vm.len() == jvals@.len());
    }
    match res {
        Some(objs) => {
            proof {
                assert forall|i: int| 0 <= i < vm.len() implies (#[trigger] vm[i]) is Obj by {
                    assert(jvals@[i].dv() is Obj);
                    assert(jvals@[i].dv() == vm[i]);
                }
                assert(all_records(vm));
                assert forall|i: int|
                    0 <= i < objs@.len() implies objs@.map_values(obj_dv_fn())[i] == records_of(
                    vm,
                )[i] by {
                    assert(records_of(vm)[i] == vm[i]->Obj_0);
                    assert(objs@.map_values(obj_dv_fn())[i] == objs@[i].dv());
                    assert(jvals@[i].dv() == vm[i]);
                    assert(objs@[i].dv() == jvals@[i].dv()->Obj_0);
                }
                assert(objs@.map_values(obj_dv_fn()) =~= records_of(vm));
                assert forall|i: int| 0 <= i < objs@.len() implies obj_wf(
                    #[trigger] objs@[i].dv(),
                ) by {
                    assert(jvals@[i].dv() == vm[i]);
                    assert(objs@[i].wf());
                }
            }
            Some(objs)
        },
        None => {
            proof {
                let i = choose|i: int|
                    0 <= i < jvals@.len() && !((#[trigger] jvals@[i].dv()) is Obj);
                assert(jvals@[i].dv() == vm[i]);
                assert(!(vm[i] is Obj));
            }
            None
        },
    }
}

/// The normalized records of one ingestion call.
#[derive(Debug, PartialEq)]
pub struct JsonObjects(Vec<JsonObject>);

impl JsonObjects {
    /// The models of the records, in order.
    pub closed spec fn dv(self) -> Seq<ObjV> {
        self.0@.map_values(obj_dv_fn())
    }

    pub open spec fn wf(self) -> bool {
        forall|i: int| 0 <= i < self.dv().len() ==> obj_wf(#[trigger] self.dv()[i])
    }

    pub fn len(&self) -> (n: usize)
        ensures
            n == self.dv().len(),
    {
        self.0.len()
    }

    /// The record at a position.
    pub fn record_at(&self, i: usize) -> (r: &JsonObject)
        requires
            i < self.dv().len(),
        ensures
            r.dv() == self.dv()[i as int],
    {
        &self.0[i]
    }

    /// Parse, map and convert one ingestion call's text. The text is first
    /// folded to the simplified script when asked; it is then read as an
    /// array of records, or failing that as one record; each record then
    /// has the field mapping and the declared conversions applied, in
    /// declared order.
    pub fn new(input: &str, config: &InputConfig, t2s: bool) -> (r: Result<JsonObjects, IndexError>)
        ensures
            ({
                let eff = effective_input(input@, t2s);
                let t = config.spec_input_type();
                let ms = config.mapping_v();
                let cs = config.conversion_v();
                match r {
                    Ok(objs) => record_models(eff, t) matches Some(rs) && normalize_all(rs, ms, cs)
                        matches Ok(outs) && objs.dv() == outs && objs.wf(),
                    Err(e) => match record_models(eff, t) {
                        None => e is Parse,
                        Some(rs) => normalize_all(rs, ms, cs) matches Err(k) && e matches
                            IndexError::Conversion(f) && f@ == k,
                    },
                }
            }),
    {
        let ghost eff = effective_input(input@, t2s);
        let ghost t_spec = config.spec_input_type();
        let folded: Option<String> = if t2s {
            Some(simplify_text(input))
        } else {
            None
        };
        let text: &str = match &folded {
            Some(s) => s.as_str(),
            None => input,
        };
        proof {
            assert(text@ == eff);
        }
        let t = config.input_type();
        let parsed: Option<Vec<serde_json::Value>> = match t {
            InputType::Json => parse_json_values(text),
            InputType::Yaml => parse_yaml_values(text),
            InputType::Xml => parse_xml_values(text),
        };
        let ghost rm = record_models(eff, t_spec);
        let records_opt: Option<Vec<JsonObject>> = match parsed {
            Some(vals) => {
                proof {
                    assert(parsed_values(eff, t_spec) is Some);
                    assert(values_model(vals@) == parsed_values(eff, t_spec)->Some_0);
                }
                let r = records_from_parsed(vals);
                proof {
                    let vs = parsed_values(eff, t_spec)->Some_0;
                    if r is Some {
                        assert(all_records(vs));
                        assert(rm == Some(records_of(vs)));
                        assert(r->Some_0@.map_values(obj_dv_fn()) == rm->Some_0);
                    } else {
                        assert(!all_records(vs));
                        assert(rm == record_model_single(eff, t_spec));
                    }
                }
                r
            },
            None => {
                proof {
                    assert(parsed_values(eff, t_spec) is None);
                    assert(rm == record_model_single(eff, t_spec));
                }
                None
            },
        };
        let records: Vec<JsonObject> = match records_opt {
            Some(rs) => {
                proof {
                    assert(rs@.map_values(obj_dv_fn()) == rm->Some_0);
                }
                rs
            },
            None => {
                proof {
                    if parsed_values(eff, t_spec) is Some {
                        let vs = parsed_values(eff, t_spec)->Some_0;
                        assert(!all_records(vs));
                    }
                    assert(rm == record_model_single(eff, t_spec));
                }
                let single: Option<serde_json::Value> = match t {
                    InputType::Json => parse_json_value(text),
                    InputType::Yaml => parse_yaml_value(text),
                    InputType::Xml => parse_xml_value(text),
                };
                match single {
                    Some(v) => {
                        let jv = to_value(v);
                        match jv {
                            JsonValue::Obj(entries) => {
                                let o = record_from_entries(entries);
                                let mut one: Vec<JsonObject> = Vec::new();
                                one.push(o);
                                proof {
                                    assert(one@.map_values(obj_dv_fn()) =~= seq![
                                        dv_entries(entries@),
                                    ]);
                                    assert(rm == Some(seq![dv_entries(entries@)]));
                                }
                                one
                            },
                            _ => {
                                return Err(IndexError::Parse(error_prefix(text)));
                            },
                        }
                    },
                    None => {
                        return Err(IndexError::Parse(error_prefix(text)));
                    },
                }
            },
        };
        let ghost rs_model = rm->Some_0;
        let ghost ms = config.mapping_v();
        let ghost cs = config.conversion_v();
        proof {
            assert(records@.map_values(obj_dv_fn()) == rs_model);
        }
        let ghost all = records@;
        let mut rest = records;
        let mut out: Vec<JsonObject> = Vec::new();
        proof {
            assert(rs_model.take(0) =~= Seq::<ObjV>::empty());
            assert(out@.map_values(obj_dv_fn()) =~= Seq::<ObjV>::empty());
        }
        while rest.len() > 0
            invariant
                out@.len() + rest@.len() == all.len(),
                rest@ == all.skip(out@.len() as int),
                all.map_values(obj_dv_fn()) == rs_model,
                rs_model.len() == all.len(),
                rm == record_models(eff, t_spec),
                rm == Some(rs_model),
                ms == config.mapping_v(),
                cs == config.conversion_v(),
                eff == effective_input(input@, t2s),
                t_spec == config.spec_input_type(),
                normalize_all(rs_model.take(out@.len() as int), ms, cs) == Ok::<Seq<ObjV>, Seq<char>>(
                    out@.map_values(obj_dv_fn()),
                ),
                forall|i: int| 0 <= i < all.len() ==> obj_wf(#[trigger] all[i].dv()),
                forall|i: int| 0 <= i < out@.len() ==> obj_wf(#[trigger] out@[i].dv()),
            decreases rest@.len(),
        {
            let ghost k = out@.len() as int;
            let mut obj = rest.remove(0);
            proof {
                assert(obj == all[k]);
                assert(rest@ =~= all.skip(k + 1));
                assert(all.map_values(obj_dv_fn())[k] == all[k].dv());
                assert(obj.wf());
            }
            apply_mapping(&mut obj, &config.mapping);
            let step = apply_conversion(&mut obj, &config.conversion);
            proof {
                assert(rs_model.take(k + 1).drop_last() =~= rs_model.take(k));
                assert(rs_model.take(k + 1).last() == rs_model[k]);
            }
            match step {
                Ok(_) => {
                    let ghost out0 = out@;
                    out.push(obj);
                    proof {
                        assert(normalize_model(rs_model[k], ms, cs) == Ok::<ObjV, Seq<char>>(
                            obj.dv(),
                        ));
                        assert(out@.map_values(obj_dv_fn()) =~= out0.map_values(obj_dv_fn()).push(
                            obj.dv(),
                        ));
                        assert(normalize_all(rs_model.take(k + 1), ms, cs) == Ok::<
                            Seq<ObjV>,
                            Seq<char>,
                        >(out0.map_values(obj_dv_fn()).push(obj.dv())));
                    }
                },
                Err(f) => {
                    proof {
                        assert(normalize_model(rs_model[k], ms, cs) == Err::<ObjV, Seq<char>>(f@));
                        assert(normalize_all(rs_model.take(k + 1), ms, cs) == Err::<
                            Seq<ObjV>,
                            Seq<char>,
                        >(f@));
                        lemma_normalize_all_err_extends(rs_model, ms, cs, k + 1);
                    }
                    return Err(IndexError::Conversion(f));
                },
            }
        }
        proof {
            assert(rs_model.take(rs_model.len() as int) =~= rs_model);
        }
        let result = JsonObjects(out);
        Ok(result)
    }
}

/// One scalar value coerced to a declared field type: an unsigned integer
/// for an unsigned field, any machine integer for a signed field, text for
/// a text field; everything else is incompatible.
pub open spec fn coerce_scalar(k: FieldKind, v: ValueV) -> Option<TypedValueV> {
    match k {
        FieldKind::Uint => match v {
            ValueV::Num(NumberV::Unsigned(u)) => Some(TypedValueV::U64(u)),
            _ => None,
        },
        FieldKind::Int => match v {
            ValueV::Num(NumberV::Unsigned(u)) => if u <= i64::MAX {
                Some(TypedValueV::I64(u as i64))
            } else {
                None
            },
            ValueV::Num(NumberV::Signed(i)) => Some(TypedValueV::I64(i)),
            _ => None,
        },
        FieldKind::Text => match v {
            ValueV::Str(s) => Some(TypedValueV::Text(s)),
            _ => None,
        },
    }
}

/// Array elements coerced one by one, all under the same field name.
pub open spec fn coerce_items(name: Seq<char>, k: FieldKind, items: Seq<ValueV>) -> Option<
    Seq<(Seq<char>, TypedValueV)>,
>
    decreases items.len(),
{
    if items.len() == 0 {
        Some(Seq::empty())
    } else {
        match coerce_items(name, k, items.drop_last()) {
            Some(d) => match coerce_scalar(k, items.last()) {
                Some(tv) => Some(d.push((name, tv))),
                None => None,
            },
            None => None,
        }
    }
}

/// One record field turned into document entries: an array expands into
/// one entry per element; a scalar gives one entry.
pub open spec fn coerce_entry(name: Seq<char>, k: FieldKind, v: ValueV) -> Option<
    Seq<(Seq<char>, TypedValueV)>,
> {
    if v is Arr {
        coerce_items(name, k, v->Arr_0)
    } else {
        match coerce_scalar(k, v) {
            Some(tv) => Some(seq![(name, tv)]),
            None => None,
        }
    }
}

/// One record built into a document against the schema: every field must
/// be declared and every value must fit its declared type; the first
/// offending field name wins, and no partial document is ever reported.
pub open spec fn build_doc(o: ObjV, s: SchemaV) -> Result<DocV, Seq<char>>
    decreases o.len(),
{
    if o.len() == 0 {
        Ok(Seq::empty())
    } else {
        match build_doc(o.drop_last(), s) {
            Ok(d) => {
                let p = o.last();
                if !sch_has(s, p.0) {
                    Err(p.0)
                } else {
                    match coerce_entry(p.0, sch_kind(s, p.0), p.1) {
                        Some(es) => Ok(d + es),
                        None => Err(p.0),
                    }
                }
            },
            Err(k) => Err(k),
        }
    }
}

/// Every record built, in order; the earliest failure wins.
pub open spec fn build_all(rs: Seq<ObjV>, s: SchemaV) -> Result<Seq<DocV>, Seq<char>>
    decreases rs.len(),
{
    if rs.len() == 0 {
        Ok(Seq::empty())
    } else {
        match build_all(rs.drop_last(), s) {
            Ok(ds) => match build_doc(rs.last(), s) {
                Ok(d) => Ok(ds.push(d)),
                Err(k) => Err(k),
            },
            Err(k) => Err(k),
        }
    }
}

/// The model of one built document.
pub open spec fn doc_dv_fn() -> spec_fn(Document) -> DocV {
    |d: Document| d.dv()
}

/// Once building fails on a prefix of the fields, the rest keep the same
/// failure.
proof fn lemma_build_doc_err_extends(o: ObjV, s: SchemaV, i: int)
    requires
        0 <= i <= o.len(),
        build_doc(o.take(i), s) is Err,
    ensures
        build_doc(o, s) == build_doc(o.take(i), s),
    decreases o.len() - i,
{
    if i < o.len() {
        assert(o.take(i + 1).drop_last() =~= o.take(i));
        lemma_build_doc_err_extends(o, s, i + 1);
    } else {
        assert(o.take(i) =~= o);
    }
}

/// Once building fails on a prefix of the records, the rest keep the same
/// failure.
proof fn lemma_build_all_err_extends(rs: Seq<ObjV>, s: SchemaV, i: int)
    requires
        0 <= i <= rs.len(),
        build_all(rs.take(i), s) is Err,
    ensures
        build_all(rs, s) == build_all(rs.take(i), s),
    decreases rs.len() - i,
{
    if i < rs.len() {
        assert(rs.take(i + 1).drop_last() =~= rs.take(i));
        lemma_build_all_err_extends(rs, s, i + 1);
    } else {
        assert(rs.take(i) =~= rs);
    }
}

/// Once one array element fails to coerce, the array fails.
proof fn lemma_coerce_items_none_extends(name: Seq<char>, k: FieldKind, items: Seq<ValueV>, i: int)
    requires
        0 <= i <= items.len(),
        coerce_items(name, k, items.take(i)) is None,
    ensures
        coerce_items(name, k, items) is None,
    decreases items.len() - i,
{
    if i < items.len() {
        assert(items.take(i + 1).drop_last() =~= items.take(i));
        lemma_coerce_items_none_extends(name, k, items, i + 1);
    } else {
        assert(items.take(i) =~= items);
    }
}

/// Coerce one scalar value to a declared field type.
fn coerce_value(kind: FieldKind, v: &JsonValue) -> (r: Option<TypedValue>)
    ensures
        match r {
            Some(tv) => coerce_scalar(kind, v.dv()) == Some(tv.dv()),
            None => coerce_scalar(kind, v.dv()) is None,
        },
{
    match (kind, v) {
        (FieldKind::Uint, JsonValue::Num(JsonNumber::Unsigned(u))) => Some(TypedValue::U64(*u)),
        (FieldKind::Int, JsonValue::Num(JsonNumber::Unsigned(u))) => {
            if *u <= 0x7fff_ffff_ffff_ffffu64 {
                Some(TypedValue::I64(*u as i64))
            } else {
                None
            }
        },
        (FieldKind::Int, JsonValue::Num(JsonNumber::Signed(i))) => Some(TypedValue::I64(*i)),
        (FieldKind::Text, JsonValue::Str(text)) => Some(TypedValue::Text(text.clone())),
        _ => None,
    }
}

/// Build one record into a typed document against the schema.
fn build_document(obj: &JsonObject, schema: &Schema) -> (r: Result<Document, String>)
    requires
        schema.wf(),
    ensures
        match r {
            Ok(d) => build_doc(obj.dv(), schema.dv()) == Ok::<DocV, Seq<char>>(d.dv()),
            Err(f) => build_doc(obj.dv(), schema.dv()) == Err::<DocV, Seq<char>>(f@),
        },
{
    let ghost o = obj.dv();
    let ghost sv = schema.dv();
    let n = obj.len();
    let mut doc = Document::new();
    let mut i: usize = 0;
    proof {
        assert(o.take(0) =~= Seq::<(Seq<char>, ValueV)>::empty());
    }
    while i < n
        invariant
            n == o.len(),
            i <= n,
            o == obj.dv(),
            sv == schema.dv(),
            sch_wf_inv(sv),
            build_doc(o.take(i as int), sv) == Ok::<DocV, Seq<char>>(doc.dv()),
        decreases n - i,
    {
        let ghost d0 = doc.dv();
        proof {
            assert(o.take(i + 1).drop_last() =~= o.take(i as int));
            assert(o.take(i + 1).last() == o[i as int]);
        }
        let entry = obj.entry_at(i);
        match schema.position_of(entry.name.as_str()) {
            None => {
                proof {
                    assert(build_doc(o.take(i + 1), sv) == Err::<DocV, Seq<char>>(entry.name@));
                    lemma_build_doc_err_extends(o, sv, i + 1);
                }
                return Err(entry.name.clone());
            },
            Some(pos) => {
                let kind = schema.kind_at(pos);
                proof {
                    let at = crate::schema::sch_at(sv, entry.name@);
                    assert(sv[at].0 == entry.name@);
                    assert(at == pos as int);
                    assert(kind == sch_kind(sv, entry.name@));
                }
                match &entry.value {
                    JsonValue::Arr(items) => {
                        let ghost im = crate::value::dv_list(items@);
                        proof {
                            assert(entry.value.dv() == ValueV::Arr(im));
                            crate::value::lemma_dv_list_len(items@);
                            assert forall|q: int|
                                0 <= q < items@.len() implies #[trigger] items@[q].dv()
                                == im[q] by {
                                crate::value::lemma_dv_list_index(items@, q);
                            }
                            assert(coerce_items(entry.name@, kind, im.take(0)) == Some(
                                Seq::<(Seq<char>, TypedValueV)>::empty(),
                            )) by {
                                assert(im.take(0) =~= Seq::<ValueV>::empty());
                            }
                            assert(doc.dv() =~= d0 + Seq::<(Seq<char>, TypedValueV)>::empty());
                        }
                        let m = items.len();
                        let mut j: usize = 0;
                        while j < m
                            invariant
                                m == items@.len(),
                                m == im.len(),
                                j <= m,
                                im == crate::value::dv_list(items@),
                                o == obj.dv(),
                                sv == schema.dv(),
                                sch_wf_inv(sv),
                                i < o.len(),
                                o[i as int] == (entry.name@, entry.value.dv()),
                                entry.value.dv() == ValueV::Arr(im),
                                sch_has(sv, entry.name@),
                                kind == sch_kind(sv, entry.name@),
                                build_doc(o.take(i as int), sv) == Ok::<DocV, Seq<char>>(d0),
                                forall|q: int|
                                    0 <= q < m ==> #[trigger] items@[q].dv() == im[q],
                                coerce_items(entry.name@, kind, im.take(j as int)) matches Some(es)
                                    && doc.dv() == d0 + es,
                            decreases m - j,
                        {
                            proof {
                                assert(im.take(j + 1).drop_last() =~= im.take(j as int));
                                assert(im.take(j + 1).last() == im[j as int]);
                            }
                            match coerce_value(kind, &items[j]) {
                                Some(tv) => {
                                    doc.add(entry.name.clone(), tv);
                                },
                                None => {
                                    proof {
                                        assert(coerce_items(entry.name@, kind, im.take(j + 1))
                                            is None);
                                        lemma_coerce_items_none_extends(
                                            entry.name@,
                                            kind,
                                            im,
                                            j + 1,
                                        );
                                        assert(o.take(i + 1).drop_last() =~= o.take(i as int));
                                        assert(o.take(i + 1).last() == o[i as int]);
                                        assert(build_doc(o.take(i + 1), sv) == Err::<
                                            DocV,
                                            Seq<char>,
                                        >(entry.name@));
                                        lemma_build_doc_err_extends(o, sv, i + 1);
                                    }
                                    return Err(entry.name.clone());
                                },
                            }
                            j = j + 1;
                        }
                        proof {
                            assert(im.take(m as int) =~= im);
                            assert(build_doc(o.take(i + 1), sv) == Ok::<DocV, Seq<char>>(
                                doc.dv(),
                            ));
                        }
                    },
                    other => {
                        match coerce_value(kind, other) {
                            Some(tv) => {
                                doc.add(entry.name.clone(), tv);
                                proof {
                                    assert(!(o[i as int].1 is Arr));
                                    assert(coerce_entry(entry.name@, kind, o[i as int].1) == Some(
                                        seq![(entry.name@, tv.dv())],
                                    ));
                                    assert(doc.dv() =~= d0 + seq![(entry.name@, tv.dv())]);
                                    assert(build_doc(o.take(i + 1), sv) == Ok::<DocV, Seq<char>>(
                                        doc.dv(),
                                    ));
                                }
                            },
                            None => {
                                proof {
                                    assert(!(o[i as int].1 is Arr));
                                    assert(build_doc(o.take(i + 1), sv) == Err::<DocV, Seq<char>>(
                                        entry.name@,
                                    ));
                                    lemma_build_doc_err_extends(o, sv, i + 1);
                                }
                                return Err(entry.name.clone());
                            },
                        }
                    },
                }
            },
        }
        i = i + 1;
    }
    proof {
        assert(o.take(n as int) =~= o);
    }
    Ok(doc)
}

/// A name for the schema invariant usable inside loop invariants.
pub open spec fn sch_wf_inv(s: SchemaV) -> bool {
    crate::schema::sch_wf(s)
}

impl JsonObjects {
    /// Build every record into a typed document against the schema; the
    /// first record with an undeclared field or an incompatible value
    /// fails the whole call, and no partial document is ever returned.
    pub fn to_docs(&self, schema: &Schema) -> (r: Result<Vec<Document>, IndexError>)
        requires
            schema.wf(),
        ensures
            match r {
                Ok(docs) => build_all(self.dv(), schema.dv()) == Ok::<Seq<DocV>, Seq<char>>(
                    docs@.map_values(doc_dv_fn()),
                ),
                Err(e) => e matches IndexError::SchemaMismatch(f) && build_all(
                    self.dv(),
                    schema.dv(),
                ) == Err::<Seq<DocV>, Seq<char>>(f@),
            },
    {
        let ghost rs = self.dv();
        let ghost sv = schema.dv();
        let n = self.len();
        let mut docs: Vec<Document> = Vec::new();
        let mut i: usize = 0;
        proof {
            assert(rs.take(0) =~= Seq::<ObjV>::empty());
            assert(docs@.map_values(doc_dv_fn()) =~= Seq::<DocV>::empty());
        }
        while i < n
            invariant
                n == rs.len(),
                i <= n,
                rs == self.dv(),
                sv == schema.dv(),
                sch_wf_inv(sv),
                build_all(rs.take(i as int), sv) == Ok::<Seq<DocV>, Seq<char>>(
                    docs@.map_values(doc_dv_fn()),
                ),
            decreases n - i,
        {
            proof {
                assert(rs.take(i + 1).drop_last() =~= rs.take(i as int));
                assert(rs.take(i + 1).last() == rs[i as int]);
            }
            let obj = self.record_at(i);
            match build_document(obj, schema) {
                Ok(d) => {
                    let ghost docs0 = docs@;
                    docs.push(d);
                    proof {
                        assert(docs@.map_values(doc_dv_fn()) =~= docs0.map_values(
                            doc_dv_fn(),
                        ).push(d.dv()));
                        assert(build_all(rs.take(i + 1), sv) == Ok::<Seq<DocV>, Seq<char>>(
                            docs@.map_values(doc_dv_fn()),
                        ));
                    }
                },
                Err(f) => {
                    proof {
                        assert(build_all(rs.take(i + 1), sv) == Err::<Seq<DocV>, Seq<char>>(f@));
                        lemma_build_all_err_extends(rs, sv, i + 1);
                    }
                    return Err(IndexError::SchemaMismatch(f));
                },
            }
            i = i + 1;
        }
        proof {
            assert(rs.take(n as int) =~= rs);
        }
        Ok(docs)
    }
}

/// One queued mutation request: insert-only, upsert-by-id, a durable
/// flush, or removal of everything.
#[derive(Debug, PartialEq)]
pub enum Input {
    Create(Vec<Document>),
    Update(Vec<Document>),
    Commit,
    Clear,
}

/// The model of a mutation request.
pub enum InputV {
    Create(Seq<DocV>),
    Update(Seq<DocV>),
    Commit,
    Clear,
}

/// One operation on the index writer, in the order the coordinator must
/// apply them.
#[derive(Debug, PartialEq)]
pub enum WriterOp {
    /// Insert the document.
    AddDoc(Document),
    /// Delete every document whose "id" field holds this value.
    DeleteTerm(u64),
    /// Flush everything staged so far durably.
    Commit,
    /// Remove every document.
    Clear,
}

/// The model of one writer operation.
pub enum WriterOpV {
    AddDoc(DocV),
    DeleteTerm(u64),
    Commit,
    Clear,
}

impl WriterOp {
    pub open spec fn dv(self) -> WriterOpV {
        match self {
            WriterOp::AddDoc(d) => WriterOpV::AddDoc(d.dv()),
            WriterOp::DeleteTerm(id) => WriterOpV::DeleteTerm(id),
            WriterOp::Commit => WriterOpV::Commit,
            WriterOp::Clear => WriterOpV::Clear,
        }
    }
}

/// The model of one planned operation.
pub open spec fn op_dv_fn() -> spec_fn(WriterOp) -> WriterOpV {
    |op: WriterOp| op.dv()
}

/// The operations that apply an insert-only request: one insert per
/// document, in order.
pub open spec fn plan_creates(ds: Seq<DocV>) -> Seq<WriterOpV>
    decreases ds.len(),
{
    if ds.len() == 0 {
        Seq::empty()
    } else {
        plan_creates(ds.drop_last()).push(WriterOpV::AddDoc(ds.last()))
    }
}

/// The operations that apply one upserted document: where the schema
/// declares an "id" field and the document resolves one, the matching
/// documents are deleted first; otherwise the document is only inserted.
pub open spec fn plan_update_one(d: DocV, has_id_field: bool) -> Seq<WriterOpV> {
    if has_id_field && doc_id(d) is Some {
        seq![WriterOpV::DeleteTerm(doc_id(d)->0), WriterOpV::AddDoc(d)]
    } else {
        seq![WriterOpV::AddDoc(d)]
    }
}

/// The operations that apply an upsert request, document by document.
pub open spec fn plan_updates(ds: Seq<DocV>, has_id_field: bool) -> Seq<WriterOpV>
    decreases ds.len(),
{
    if ds.len() == 0 {
        Seq::empty()
    } else {
        plan_updates(ds.drop_last(), has_id_field) + plan_update_one(ds.last(), has_id_field)
    }
}

/// The ordered writer operations that apply one request.
pub open spec fn process_model(i: InputV, s: SchemaV) -> Seq<WriterOpV> {
    match i {
        InputV::Create(ds) => plan_creates(ds),
        InputV::Update(ds) => plan_updates(ds, sch_has(s, "id"@)),
        InputV::Commit => seq![WriterOpV::Commit],
        InputV::Clear => seq![WriterOpV::Clear],
    }
}

impl Input {
    /// The model of the request.
    pub open spec fn dv(self) -> InputV {
        match self {
            Input::Create(ds) => InputV::Create(ds@.map_values(doc_dv_fn())),
            Input::Update(ds) => InputV::Update(ds@.map_values(doc_dv_fn())),
            Input::Commit => InputV::Commit,
            Input::Clear => InputV::Clear,
        }
    }

    pub fn new_create(docs: Vec<Document>) -> (r: Self)
        ensures
            r.dv() == InputV::Create(docs@.map_values(doc_dv_fn())),
    {
        Self::Create(docs)
    }

    pub fn new_update(docs: Vec<Document>) -> (r: Self)
        ensures
            r.dv() == InputV::Update(docs@.map_values(doc_dv_fn())),
    {
        Self::Update(docs)
    }

    pub fn new_commit() -> (r: Self)
        ensures
            r.dv() == InputV::Commit,
    {
        Self::Commit
    }

    pub fn new_clear() -> (r: Self)
        ensures
            r.dv() == InputV::Clear,
    {
        Self::Clear
    }

    /// Turn the request into the ordered writer operations that apply it.
    /// An insert-only request inserts every document unconditionally; an
    /// upsert deletes by the resolvable identifier first where one exists,
    /// and otherwise degenerates to a plain insert.
    pub fn process(self, schema: &Schema) -> (r: Vec<WriterOp>)
        ensures
            r@.map_values(op_dv_fn()) == process_model(self.dv(), schema.dv()),
    {
        let ghost sv = schema.dv();
        let mut ops: Vec<WriterOp> = Vec::new();
        proof {
            assert(ops@.map_values(op_dv_fn()) =~= Seq::<WriterOpV>::empty());
        }
        match self {
            Input::Create(ds) => {
                let ghost all_docs = ds@;
                let ghost all = ds@.map_values(doc_dv_fn());
                let mut rest = ds;
                let total = rest.len();
                let mut k: usize = 0;
                proof {
                    assert(all.take(0) =~= Seq::<DocV>::empty());
                }
                while rest.len() > 0
                    invariant
                        total == all_docs.len(),
                        k + rest@.len() == all_docs.len(),
                        all == all_docs.map_values(doc_dv_fn()),
                        rest@ == all_docs.skip(k as int),
                        ops@.map_values(op_dv_fn()) == plan_creates(all.take(k as int)),
                    decreases rest@.len(),
                {
                    let d = rest.remove(0);
                    proof {
                        assert(d == all_docs[k as int]);
                        assert(rest@ =~= all_docs.skip(k + 1));
                    }
                    let ghost ops0 = ops@;
                    ops.push(WriterOp::AddDoc(d));
                    proof {
                        assert(all.take(k + 1).drop_last() =~= all.take(k as int));
                        assert(all.take(k + 1).last() == all[k as int]);
                        assert(all[k as int] == d.dv());
                        assert(ops@.map_values(op_dv_fn()) =~= ops0.map_values(op_dv_fn()).push(
                            WriterOpV::AddDoc(d.dv()),
                        ));
                    }
                    k = k + 1;
                }
                proof {
                    assert(all.take(all.len() as int) =~= all);
                }
            },
            Input::Update(ds) => {
                let has_id = schema.position_of("id").is_some();
                let ghost hid = sch_has(sv, "id"@);
                let ghost all_docs = ds@;
                let ghost all = ds@.map_values(doc_dv_fn());
                let mut rest = ds;
                let total = rest.len();
                let mut k: usize = 0;
                proof {
                    assert(all.take(0) =~= Seq::<DocV>::empty());
                }
                while rest.len() > 0
                    invariant
                        total == all_docs.len(),
                        k + rest@.len() == all_docs.len(),
                        all == all_docs.map_values(doc_dv_fn()),
                        rest@ == all_docs.skip(k as int),
                        has_id == hid,
                        ops@.map_values(op_dv_fn()) == plan_updates(all.take(k as int), hid),
                    decreases rest@.len(),
                {
                    let d = rest.remove(0);
                    proof {
                        assert(d == all_docs[k as int]);
                        assert(rest@ =~= all_docs.skip(k + 1));
                        assert(all.take(k + 1).drop_last() =~= all.take(k as int));
                        assert(all.take(k + 1).last() == all[k as int]);
                        assert(all[k as int] == d.dv());
                    }
                    let ghost ops0 = ops@;
                    if has_id {
                        match d.id_value() {
                            Some(id) => {
                                ops.push(WriterOp::DeleteTerm(id));
                                ops.push(WriterOp::AddDoc(d));
                                proof {
                                    assert(ops@.map_values(op_dv_fn()) =~= ops0.map_values(
                                        op_dv_fn(),
                                    ) + seq![
                                        WriterOpV::DeleteTerm(id),
                                        WriterOpV::AddDoc(all[k as int]),
                                    ]);
                                    assert(plan_updates(all.take(k + 1), hid) == plan_updates(
                                        all.take(k as int),
                                        hid,
                                    ) + plan_update_one(all[k as int], hid));
                                }
                            },
                            None => {
                                ops.push(WriterOp::AddDoc(d));
                                proof {
                                    assert(ops@.map_values(op_dv_fn()) =~= ops0.map_values(
                                        op_dv_fn(),
                                    ) + seq![WriterOpV::AddDoc(all[k as int])]);
                                }
                            },
                        }
                    } else {
                        ops.push(WriterOp::AddDoc(d));
                        proof {
                            assert(ops@.map_values(op_dv_fn()) =~= ops0.map_values(op_dv_fn())
                                + seq![WriterOpV::AddDoc(all[k as int])]);
                        }
                    }
                    k = k + 1;
                }
                proof {
                    assert(all.take(all.len() as int) =~= all);
                }
            },
            Input::Commit => {
                ops.push(WriterOp::Commit);
                proof {
                    assert(ops@.map_values(op_dv_fn()) =~= seq![WriterOpV::Commit]);
                }
            },
            Input::Clear => {
                ops.push(WriterOp::Clear);
                proof {
                    assert(ops@.map_values(op_dv_fn()) =~= seq![WriterOpV::Clear]);
                }
            },
        }
        ops
    }
}

/// Mapping a field to a new name and then converting the new name from
/// `Number` to `Text` yields a record where the old name is absent and
/// the new name holds the decimal text of the original number.
pub proof fn lemma_map_then_convert_round_trip(o: ObjV, a: Seq<char>, b: Seq<char>, n: NumberV)
    requires
        obj_wf(o),
        obj_get(o, a) == Some(ValueV::Num(n)),
        a != b,
    ensures
        ({
            let ms = seq![(a, b)];
            let cs = seq![(b, ValueType::Number, ValueType::Text)];
            normalize_model(o, ms, cs) matches Ok(o2) && obj_get(o2, a) is None && obj_get(o2, b)
                == Some(ValueV::Str(num_text(n)))
        }),
{
    let ms = seq![(a, b)];
    let cs = seq![(b, ValueType::Number, ValueType::Text)];
    assert(obj_has_key(o, a));
    assert(ms.drop_last() =~= Seq::<(Seq<char>, Seq<char>)>::empty());
    assert(apply_maps(o, ms.drop_last()) == o);
    let o1 = apply_maps(o, ms);
    assert(o1 == map_step(o, (a, b)));
    assert(o1 == obj_insert(obj_remove(o, a), b, ValueV::Num(n)));
    crate::value::lemma_obj_remove_props(o, a);
    let r = obj_remove(o, a);
    crate::value::lemma_obj_insert_props(r, b, ValueV::Num(n));
    assert(obj_get(o1, b) == Some(ValueV::Num(n)));
    assert(obj_get(o1, a) == obj_get(r, a));
    assert(obj_get(o1, a) is None) by {
        if obj_has_key(r, a) {
        }
    }
    assert(cs.drop_last() =~= Seq::<(Seq<char>, ValueType, ValueType)>::empty());
    assert(apply_convs(o1, cs.drop_last()) == Ok::<ObjV, Seq<char>>(o1));
    let res = apply_convs(o1, cs);
    assert(res == conv_step(o1, (b, ValueType::Number, ValueType::Text)));
    assert(obj_has_key(o1, b));
    assert(res == Ok::<ObjV, Seq<char>>(obj_insert(o1, b, ValueV::Str(num_text(n)))));
    let o2 = res->Ok_0;
    assert(obj_wf(o1));
    crate::value::lemma_obj_insert_props(o1, b, ValueV::Str(num_text(n)));
    assert(obj_get(o2, b) == Some(ValueV::Str(num_text(n))));
    assert(obj_get(o2, a) == obj_get(o1, a));
}

} // verus!
