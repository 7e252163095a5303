//! Reading JSON documents from text, and diffing documents given as text.
use vstd::prelude::*;
use crate::diff::{auto_total, capped, conflict_total, diff_three, diff_two, spec_diff_three, spec_diff_two};
use crate::json::{JsonMap, JsonNumber, JsonTree, JsonValue};
use crate::types::DiffResult;

verus! {

#[verifier::external_type_specification]
#[verifier::external_body]
pub struct ExSerdeJsonValue(serde_json::Value);

#[verifier::external_type_specification]
#[verifier::external_body]
pub struct ExSerdeJsonNumber(serde_json::Number);

/// What `serde_json` reads from a text: the document, as a tree, or, where
/// the text is not one JSON value, the error message it reports (its
/// `Display`, with line and column).
pub uninterp spec fn parsed_json(text: Seq<char>) -> Result<JsonTree, Seq<char>>;

/// `serde_json::from_str::<serde_json::Value>`: the document a text holds,
/// converted member by member (in the order `serde_json` gives them) into a
/// library value; or the error `serde_json` reports, as its message text.
/// Both go by the name `parsed_json`.
#[verifier::external_body]
fn parse_json(text: &str) -> (r: Result<JsonValue, String>)
    ensures
        match r {
            Ok(v) => parsed_json(text@) == Ok::<JsonTree, Seq<char>>(v@),
            Err(m) => parsed_json(text@) == Err::<JsonTree, Seq<char>>(m@),
        },
{
    match serde_json::from_str::<serde_json::Value>(text) {
        Ok(v) => Ok(json_from_serde(&v)),
        Err(e) => Err(e.to_string()),
    }
}

/// Converts a `serde_json::Value` into the library's value, one for one,
/// object members in the order the map gives them. It is part of
/// `parse_json`, whose contract covers what comes out.
#[verifier::external_body]
fn json_from_serde(v: &serde_json::Value) -> JsonValue {
    match v {
        serde_json::Value::Null => JsonValue::Null,
        serde_json::Value::Bool(b) => JsonValue::Bool(*b),
        serde_json::Value::Number(n) => JsonValue::Number(number_from_serde(n)),
        serde_json::Value::String(s) => JsonValue::String(s.clone()),
        serde_json::Value::Array(xs) => JsonValue::Array(xs.iter().map(json_from_serde).collect()),
        serde_json::Value::Object(m) => JsonValue::Object(JsonMap {
            entries: m.iter().map(|(k, x)| (k.clone(), json_from_serde(x))).collect(),
        }),
    }
}

/// Converts a `serde_json::Number` by its own kind: a non-negative integer,
/// a negative integer, or a double (by its bit pattern). It is part of
/// `parse_json`, whose contract covers what comes out.
#[verifier::external_body]
fn number_from_serde(n: &serde_json::Number) -> JsonNumber {
    match (n.as_u64(), n.as_i64()) {
        (Some(u), _) => JsonNumber::PosInt(u),
        (None, Some(i)) => JsonNumber::NegInt(i),
        (None, None) => JsonNumber::Float(n.as_f64().map(|x| x.to_bits()).unwrap_or(0)),
    }
}

/// Why a text could not be read as a JSON document.
#[derive(Debug)]
pub struct ParseError {
    pub message: String,
}

/// Reads a JSON document from text.
pub fn parse_document(text: &str) -> (r: Result<JsonValue, ParseError>)
    ensures
        match r {
            Ok(v) => parsed_json(text@) == Ok::<JsonTree, Seq<char>>(v@),
            Err(e) => parsed_json(text@) == Err::<JsonTree, Seq<char>>(e.message@),
        },
{
    match parse_json(text) {
        Ok(v) => Ok(v),
        Err(message) => Err(ParseError { message }),
    }
}

/// The error reported for the first of the texts that is not one JSON value.
pub open spec fn first_error(texts: Seq<Seq<char>>) -> Option<Seq<char>>
    decreases texts.len(),
{
    if texts.len() == 0 {
        None
    } else {
        match parsed_json(texts[0]) {
            Err(m) => Some(m),
            Ok(_) => first_error(texts.drop_first()),
        }
    }
}

/// The 2-way diff of two documents given as text; the error of the first
/// text that is not one JSON value.
pub fn diff_two_text(base: &str, mine: &str) -> (r: Result<DiffResult, ParseError>)
    ensures
        match r {
            Ok(d) => {
                &&& parsed_json(base@) is Ok
                &&& parsed_json(mine@) is Ok
                &&& d.root@ == spec_diff_two(
                    parsed_json(base@)->Ok_0,
                    parsed_json(mine@)->Ok_0,
                )
                &&& d.conflict_count == 0
                &&& d.auto_merged_count == 0
            },
            Err(e) => first_error(seq![base@, mine@]) == Some(e.message@),
        },
{
    proof {
        assert(seq![base@, mine@].drop_first() =~= seq![mine@]);
        assert(seq![mine@].drop_first() =~= Seq::<Seq<char>>::empty());
        reveal_with_fuel(first_error, 3);
    }
    let b = match parse_document(base) {
        Ok(v) => v,
        Err(e) => return Err(e),
    };
    let m = match parse_document(mine) {
        Ok(v) => v,
        Err(e) => return Err(e),
    };
    Ok(diff_two(&b, &m))
}

/// The 3-way diff of three documents given as text; the error of the first
/// text that is not one JSON value.
pub fn diff_three_text(base: &str, mine: &str, theirs: &str) -> (r: Result<DiffResult, ParseError>)
    ensures
        match r {
            Ok(d) => {
                &&& parsed_json(base@) is Ok
                &&& parsed_json(mine@) is Ok
                &&& parsed_json(theirs@) is Ok
                &&& d.root@ == spec_diff_three(
                    parsed_json(base@)->Ok_0,
                    parsed_json(mine@)->Ok_0,
                    parsed_json(theirs@)->Ok_0,
                )
                &&& d.conflict_count == capped(conflict_total(d.root@) as int)
                &&& d.auto_merged_count == capped(auto_total(d.root@) as int)
            },
            Err(e) => first_error(seq![base@, mine@, theirs@]) == Some(e.message@),
        },
{
    proof {
        assert(seq![base@, mine@, theirs@].drop_first() =~= seq![mine@, theirs@]);
        assert(seq![mine@, theirs@].drop_first() =~= seq![theirs@]);
        assert(seq![theirs@].drop_first() =~= Seq::<Seq<char>>::empty());
        reveal_with_fuel(first_error, 4);
    }
    let b = match parse_document(base) {
        Ok(v) => v,
        Err(e) => return Err(e),
    };
    let m = match parse_document(mine) {
        Ok(v) => v,
        Err(e) => return Err(e),
    };
    let t = match parse_document(theirs) {
        Ok(v) => v,
        Err(e) => return Err(e),
    };
    Ok(diff_three(&b, &m, &t))
}

} // verus!
