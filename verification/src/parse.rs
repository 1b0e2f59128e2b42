//! The trusted boundary: calls into the text-folding and parsing crates,
//! each behind a wrapper whose contract names what the call returns.

use vstd::prelude::*;

use crate::numeric::{
    digits_val, int_text_val, is_canonical_neg_text, is_canonical_uint_text, parse_i64_neg_text,
    parse_u64_text,
};
use crate::value::{value_wf, JsonField, JsonNumber, JsonValue, NumberV, ValueV};

verus! {

/// What script simplification makes of a character sequence.
pub uninterp spec fn simplified(s: Seq<char>) -> Seq<char>;

/// Relies on fast2s::convert: rewrites text character by character, one
/// output character for each input character.
#[verifier::external_body]
pub fn simplify_text(s: &str) -> (r: String)
    ensures
        r@ == simplified(s@),
        r@.len() == s@.len(),
{
    fast2s::convert(s)
}

#[verifier::external_type_specification]
#[verifier::external_body]
pub struct ExJsonValue(serde_json::Value);

/// What a parsed value denotes in the library's canonical form.
pub uninterp spec fn value_model(v: serde_json::Value) -> ValueV;

/// The models of a sequence of parsed values, element by element.
pub open spec fn values_model(vs: Seq<serde_json::Value>) -> Seq<ValueV> {
    vs.map_values(|v: serde_json::Value| value_model(v))
}

/// Relies on serde_json::Value: a parsed value is a closed tree of null,
/// boolean, number, string, array and object nodes, its object keys
/// unique; this converts it into the library's form, node for node.
#[verifier::external_body]
pub fn to_value(v: serde_json::Value) -> (r: JsonValue)
    ensures
        r.dv() == value_model(v),
        value_wf(r.dv()),
{
    match v {
        serde_json::Value::Null => JsonValue::Null,
        serde_json::Value::Bool(b) => JsonValue::Bool(b),
        serde_json::Value::String(s) => JsonValue::Str(s),
        serde_json::Value::Number(n) => JsonValue::Num(match (n.as_u64(), n.as_i64()) {
            (Some(u), _) => JsonNumber::Unsigned(u),
            (None, Some(i)) => JsonNumber::Signed(i),
            _ => JsonNumber::Decimal(n.to_string()),
        }),
        serde_json::Value::Array(a) => JsonValue::Arr(a.into_iter().map(to_value).collect()),
        serde_json::Value::Object(m) => JsonValue::Obj(
            m.into_iter().map(|p| JsonField { name: p.0, value: to_value(p.1) }).collect(),
        ),
    }
}

/// What parsing text as an array of values yields, in the JSON format.
pub uninterp spec fn json_values_of(s: Seq<char>) -> Option<Seq<ValueV>>;

/// What parsing text as one value yields, in the JSON format.
pub uninterp spec fn json_value_of(s: Seq<char>) -> Option<ValueV>;

/// What parsing text as an array of values yields, in the YAML format.
pub uninterp spec fn yaml_values_of(s: Seq<char>) -> Option<Seq<ValueV>>;

/// What parsing text as one value yields, in the YAML format.
pub uninterp spec fn yaml_value_of(s: Seq<char>) -> Option<ValueV>;

/// What parsing text as an array of values yields, in the XML format.
pub uninterp spec fn xml_values_of(s: Seq<char>) -> Option<Seq<ValueV>>;

/// What parsing text as one value yields, in the XML format.
pub uninterp spec fn xml_value_of(s: Seq<char>) -> Option<ValueV>;

/// Relies on serde_json::from_str: parses the text as a JSON array; the
/// result depends on the text alone.
#[verifier::external_body]
pub fn parse_json_values(s: &str) -> (r: Option<Vec<serde_json::Value>>)
    ensures
        r is Some <==> json_values_of(s@) is Some,
        r matches Some(vs) ==> values_model(vs@) == json_values_of(s@)->Some_0,
{
    serde_json::from_str::<Vec<serde_json::Value>>(s).ok()
}

/// Relies on serde_json::from_str: parses the text as one JSON value; the
/// result depends on the text alone.
#[verifier::external_body]
pub fn parse_json_value(s: &str) -> (r: Option<serde_json::Value>)
    ensures
        r is Some <==> json_value_of(s@) is Some,
        r matches Some(v) ==> value_model(v) == json_value_of(s@)->Some_0,
{
    serde_json::from_str::<serde_json::Value>(s).ok()
}

/// Relies on serde_yaml::from_str: parses the text as a YAML sequence; the
/// result depends on the text alone.
#[verifier::external_body]
pub fn parse_yaml_values(s: &str) -> (r: Option<Vec<serde_json::Value>>)
    ensures
        r is Some <==> yaml_values_of(s@) is Some,
        r matches Some(vs) ==> values_model(vs@) == yaml_values_of(s@)->Some_0,
{
    serde_yaml::from_str::<Vec<serde_json::Value>>(s).ok()
}

/// Relies on serde_yaml::from_str: parses the text as one YAML document;
/// the result depends on the text alone.
#[verifier::external_body]
pub fn parse_yaml_value(s: &str) -> (r: Option<serde_json::Value>)
    ensures
        r is Some <==> yaml_value_of(s@) is Some,
        r matches Some(v) ==> value_model(v) == yaml_value_of(s@)->Some_0,
{
    serde_yaml::from_str::<serde_json::Value>(s).ok()
}

/// Relies on serde_xml_rs::from_str: parses the text as an XML document
/// holding a sequence; the result depends on the text alone.
#[verifier::external_body]
pub fn parse_xml_values(s: &str) -> (r: Option<Vec<serde_json::Value>>)
    ensures
        r is Some <==> xml_values_of(s@) is Some,
        r matches Some(vs) ==> values_model(vs@) == xml_values_of(s@)->Some_0,
{
    serde_xml_rs::from_str::<Vec<serde_json::Value>>(s).ok()
}

/// Relies on serde_xml_rs::from_str: parses the text as one XML document;
/// the result depends on the text alone.
#[verifier::external_body]
pub fn parse_xml_value(s: &str) -> (r: Option<serde_json::Value>)
    ensures
        r is Some <==> xml_value_of(s@) is Some,
        r matches Some(v) ==> value_model(v) == xml_value_of(s@)->Some_0,
{
    serde_xml_rs::from_str::<serde_json::Value>(s).ok()
}

/// What parsing text outside the strict integer grammars yields as a
/// number, if anything.
pub uninterp spec fn number_text_model(s: Seq<char>) -> Option<NumberV>;

/// Relies on serde_json::Number's from_str: accepts exactly the JSON
/// number grammar; the result depends on the text alone.
#[verifier::external_body]
fn parse_number_fallback(s: &str) -> (r: Option<JsonNumber>)
    ensures
        r is Some <==> number_text_model(s@) is Some,
        r matches Some(n) ==> n.dv() == number_text_model(s@)->Some_0,
{
    match s.parse::<serde_json::Number>() {
        Ok(n) => Some(if let Some(u) = n.as_u64() {
            JsonNumber::Unsigned(u)
        } else if let Some(i) = n.as_i64() {
            JsonNumber::Signed(i)
        } else {
            JsonNumber::Decimal(n.to_string())
        }),
        Err(_) => None,
    }
}

/// The number that text converts to under a `String` to `Number`
/// conversion: an exact integer where the strict grammar applies, else
/// whatever the JSON number grammar accepts.
pub open spec fn num_from_text(s: Seq<char>) -> Option<NumberV> {
    if is_canonical_uint_text(s) && digits_val(s) <= u64::MAX {
        Some(NumberV::Unsigned(digits_val(s) as u64))
    } else if is_canonical_neg_text(s) && -int_text_val(s) <= 9223372036854775808 {
        Some(NumberV::Signed(int_text_val(s) as i64))
    } else {
        number_text_model(s)
    }
}

/// Convert text to a number: integer text is parsed exactly; anything
/// else is given to the JSON number grammar.
pub fn number_from_text(s: &str) -> (r: Option<JsonNumber>)
    ensures
        r is Some <==> num_from_text(s@) is Some,
        r matches Some(n) ==> n.dv() == num_from_text(s@)->Some_0,
{
    match parse_u64_text(s) {
        Some(u) => Some(JsonNumber::Unsigned(u)),
        None => {
            match parse_i64_neg_text(s) {
                Some(i) => Some(JsonNumber::Signed(i)),
                None => {
                    proof {
                        assert(!(is_canonical_uint_text(s@) && digits_val(s@) <= u64::MAX));
                        assert(!(is_canonical_neg_text(s@) && -int_text_val(s@)
                            <= 9223372036854775808));
                    }
                    parse_number_fallback(s)
                },
            }
        },
    }
}

/// Formatting an unsigned value and converting the text back to a number
/// yields the same value: the decimal text of `u` is canonical integer
/// text, so the strict grammar, not the fallback, decides.
pub proof fn lemma_number_text_round_trip(u: u64)
    ensures
        num_from_text(crate::numeric::dec_digits(u as nat)) == Some(NumberV::Unsigned(u)),
{
    crate::numeric::lemma_dec_digits_val(u as nat);
}

} // verus!
