//! JSON text and JSON Schema checks, through `serde_json` and `jsonschema`.
use vstd::prelude::*;

use crate::collections::KeyMap;
use crate::json::{Json, JsonV};
use serde_json::Value;

verus! {

#[verifier::external_type_specification]
#[verifier::external_body]
pub struct ExValue(Value);

/// What `serde_json::from_str::<serde_json::Value>` makes of a text: the
/// parsed value as a JSON model value, or the text of the error it reports.
pub uninterp spec fn parsed_json(text: Seq<char>) -> Result<JsonV, Seq<char>>;

/// The outcome of compiling `schema` with `jsonschema::validator_for` and
/// checking `value` against it: the compile error's text, or the messages
/// of the validation errors in order (none when the value is valid).
pub uninterp spec fn schema_check(schema: JsonV, value: JsonV) -> Result<Seq<Seq<char>>, Seq<char>>;

/// The compact JSON text `serde_json::to_string` gives of a value.
pub uninterp spec fn json_text(value: JsonV) -> Seq<char>;

/// A `serde_json::Value` as a `Json`, variant for variant (numbers outside
/// `i64` and `u64` keep their JSON text).
#[verifier::external_body]
fn json_from_value(v: Value) -> Json {
    match v {
        Value::Null => Json::Null,
        Value::Bool(b) => Json::Bool(b),
        Value::Number(n) => match (n.as_i64(), n.as_u64()) {
            (Some(i), _) => Json::Int(i),
            (None, Some(u)) => Json::UInt(u),
            (None, None) => Json::Float(n.to_string()),
        },
        Value::String(s) => Json::Str(s),
        Value::Array(a) => Json::Array(a.into_iter().map(json_from_value).collect()),
        Value::Object(o) => Json::Object(o.into_iter().map(|(k, x)| (k, json_from_value(x))).collect()),
    }
}

/// A `Json` as a `serde_json::Value`, variant for variant.
#[verifier::external_body]
fn json_to_value(j: &Json) -> Value {
    match j {
        Json::Null => Value::Null,
        Json::Bool(b) => Value::Bool(*b),
        Json::Int(i) => Value::from(*i),
        Json::UInt(u) => Value::from(*u),
        Json::Float(t) => t.parse::<serde_json::Number>().map(Value::Number).unwrap_or(Value::Null),
        Json::Str(s) => Value::String(s.clone()),
        Json::Array(a) => Value::Array(a.iter().map(json_to_value).collect()),
        Json::Object(o) => Value::Object(o.iter().map(|(k, x)| (k.clone(), json_to_value(x))).collect()),
    }
}

/// Parse JSON text with `serde_json::from_str`; on a syntax error, the
/// error's text (`to_string`).
#[verifier::external_body]
pub(crate) fn parse_json(text: &str) -> (r: Result<Json, String>)
    ensures
        parsed_json(text@) == (match r {
            Ok(j) => Ok(j@),
            Err(e) => Err::<JsonV, Seq<char>>(e@),
        }),
{
    match serde_json::from_str::<Value>(text) {
        Ok(v) => Ok(json_from_value(v)),
        Err(e) => Err(e.to_string()),
    }
}

/// Compile `schema` with `jsonschema::validator_for` and check `value`
/// against it: `Err` with the compile error's text, or `Ok` with the
/// validation errors' messages (`to_string` of each), in order.
#[verifier::external_body]
pub(crate) fn check_against_schema(schema: &Json, value: &Json) -> (r: Result<Vec<String>, String>)
    ensures
        schema_check(schema@, value@) == (match r {
            Ok(msgs) => Ok(msgs@.map_values(|m: String| m@)),
            Err(e) => Err::<Seq<Seq<char>>, Seq<char>>(e@),
        }),
{
    let s = json_to_value(schema);
    let v = json_to_value(value);
    match jsonschema::validator_for(&s) {
        Ok(validator) => Ok(validator.iter_errors(&v).map(|e| e.to_string()).collect()),
        Err(e) => Err(e.to_string()),
    }
}

/// The compact JSON text of a value, by `serde_json::to_string` (which does
/// not fail on a `Value`; the empty text stands for its error).
#[verifier::external_body]
pub(crate) fn json_to_text(j: &Json) -> (r: String)
    ensures
        r@ == json_text(j@),
{
    serde_json::to_string(&json_to_value(j)).unwrap_or_default()
}

/// The compact JSON text of a value (see [`json_text`]).
pub fn write_json(j: &Json) -> (r: String)
    ensures
        r@ == json_text(j@),
{
    json_to_text(j)
}

/// Parse JSON text (see [`parsed_json`]): the value, or the parser's error
/// text.
pub fn read_json(text: &str) -> (r: Result<Json, String>)
    ensures
        parsed_json(text@) == (match r {
            Ok(j) => Ok(j@),
            Err(e) => Err::<JsonV, Seq<char>>(e@),
        }),
{
    parse_json(text)
}

/// The values of a keyed table of JSON values.
pub open spec fn json_values(m: Map<Seq<char>, Json>) -> Map<Seq<char>, JsonV> {
    m.map_values(|j: Json| j@)
}

/// JSON asset texts keyed by the string field `key`: each text in turn is
/// parsed (the first parse error ends the walk) and stored under the value
/// of its `key` field, a later text replacing an earlier one with the same
/// key; a text without that field is skipped.
pub open spec fn assets_fold(texts: Seq<String>, key: Seq<char>) -> Result<Map<Seq<char>, JsonV>, Seq<char>>
    decreases texts.len(),
{
    if texts.len() == 0 {
        Ok(Map::empty())
    } else {
        match assets_fold(texts.drop_last(), key) {
            Err(e) => Err(e),
            Ok(m) => match parsed_json(texts.last()@) {
                Err(e) => Err(e),
                Ok(v) => Ok(match v.str_at(key) {
                    Some(k) => m.insert(k, v),
                    None => m,
                }),
            },
        }
    }
}

/// Key JSON asset texts by a string field (see [`assets_fold`]).
pub fn assets_by_key(texts: &Vec<String>, key_field: &str) -> (r: Result<KeyMap<String, Json>, String>)
    ensures
        match r {
            Ok(m) => assets_fold(texts@, key_field@) == Ok::<Map<Seq<char>, JsonV>, Seq<char>>(json_values(m@)),
            Err(e) => assets_fold(texts@, key_field@) == Err::<Map<Seq<char>, JsonV>, Seq<char>>(e@),
        },
{
    let mut out: KeyMap<String, Json> = KeyMap::new();
    let mut i: usize = 0;
    assert(json_values(out@) =~= Map::<Seq<char>, JsonV>::empty());
    assert(texts@.subrange(0, 0) =~= Seq::<String>::empty());
    while i < texts.len()
        invariant
            i <= texts.len(),
            assets_fold(texts@.subrange(0, i as int), key_field@) == Ok::<Map<Seq<char>, JsonV>, Seq<char>>(json_values(out@)),
        decreases texts.len() - i,
    {
        let ghost pre = texts@.subrange(0, i as int);
        assert(texts@.subrange(0, i + 1).drop_last() =~= pre);
        assert(texts@.subrange(0, i + 1).last() == texts@[i as int]);
        let v = match parse_json(texts[i].as_str()) {
            Ok(v) => v,
            Err(e) => {
                proof {
                    lemma_assets_fold_err(texts@, key_field@, i as int + 1);
                }
                return Err(e);
            },
        };
        let key = match v.get_str(key_field) {
            Some(k) => Some(k.to_string()),
            None => None,
        };
        let ghost before = out@;
        match key {
            Some(k) => {
                let ghost kv = k@;
                let ghost vv = v@;
                out.insert(k, v);
                assert(json_values(out@) =~= json_values(before).insert(kv, vv));
            },
            None => {},
        }
        i = i + 1;
    }
    assert(texts@.subrange(0, i as int) =~= texts@);
    Ok(out)
}

/// Once the walk over a prefix fails, the walk over the whole fails the
/// same way.
proof fn lemma_assets_fold_err(texts: Seq<String>, key: Seq<char>, p: int)
    requires
        0 <= p <= texts.len(),
        assets_fold(texts.subrange(0, p), key) is Err,
    ensures
        assets_fold(texts, key) == assets_fold(texts.subrange(0, p), key),
    decreases texts.len() - p,
{
    if p < texts.len() {
        assert(texts.subrange(0, p + 1).drop_last() =~= texts.subrange(0, p));
        lemma_assets_fold_err(texts, key, p + 1);
    } else {
        assert(texts.subrange(0, p) =~= texts);
    }
}

} // verus!
