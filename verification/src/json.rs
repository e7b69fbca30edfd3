//! JSON values as `serde_json` holds them, and what each holds as plain data.

use crate::binary64::{fraction, Binary64, SIGN};
use crate::text::trim;
use vstd::prelude::*;

verus! {

/// A JSON number: a natural number, a negative integer, or a finite binary64 number.
pub enum JsonNumber {
    Natural(nat),
    Negative(int),
    Real(Binary64),
}

/// The contents of a JSON value. The entries of an object stand in the order of insertion.
pub enum Json {
    Null,
    Bool(bool),
    Number(JsonNumber),
    Text(Seq<char>),
    List(Seq<Json>),
    Object(Seq<(Seq<char>, Json)>),
}

/// `serde_json::Value`, a JSON value.
#[verifier::external_type_specification]
#[verifier::external_body]
pub struct ExValue(serde_json::Value);

/// The contents of a `serde_json::Value`.
pub uninterp spec fn json_of(v: serde_json::Value) -> Json;

/// What `serde_json::from_str` makes of a text: the contents of the value, if the text is JSON.
pub uninterp spec fn parsed_json(text: Seq<char>) -> Option<Json>;

/// The reason, in words, for which `serde_json::from_str` refuses a text that is not JSON.
pub uninterp spec fn refusal_text(text: Seq<char>) -> Seq<char>;

/// The compact text that `serde_json` writes for a value with the given contents.
pub uninterp spec fn json_text(j: Json) -> Seq<char>;

/// The value of the first entry under a key.
pub open spec fn entry_under(entries: Seq<(Seq<char>, Json)>, key: Seq<char>) -> Option<Json>
    decreases entries.len(),
{
    if entries.len() == 0 {
        None
    } else if entries[0].0 == key {
        Some(entries[0].1)
    } else {
        entry_under(entries.drop_first(), key)
    }
}

/// The member of an object under a key. No other value has members.
pub open spec fn member_of(j: Json, key: Seq<char>) -> Option<Json> {
    match j {
        Json::Object(entries) => entry_under(entries, key),
        _ => None,
    }
}

/// The binary64 number nearest to a JSON number.
pub open spec fn number_value(n: JsonNumber) -> Binary64 {
    match n {
        JsonNumber::Natural(k) => fraction(k, 1),
        JsonNumber::Negative(i) => Binary64 { bits: (SIGN + fraction((-i) as nat, 1).bits) as u64 },
        JsonNumber::Real(x) => x,
    }
}

/// The text that a JSON value is, if it is one.
pub open spec fn text_in(j: Json) -> Option<Seq<char>> {
    match j {
        Json::Text(s) => Some(s),
        _ => None,
    }
}

/// The truth value that a JSON value is, if it is one.
pub open spec fn flag_in(j: Json) -> Option<bool> {
    match j {
        Json::Bool(b) => Some(b),
        _ => None,
    }
}

/// The number that a JSON value is, if it is one.
pub open spec fn number_in(j: Json) -> Option<Binary64> {
    match j {
        Json::Number(n) => Some(number_value(n)),
        _ => None,
    }
}

/// Whether no two entries have the same key.
pub open spec fn distinct_keys(entries: Seq<(Seq<char>, Json)>) -> bool {
    forall|i: int, j: int|
        #![trigger entries[i], entries[j]]
        0 <= i < j < entries.len() ==> entries[i].0 != entries[j].0
}

/// How many arrays and objects, one inside the other, `serde_json::from_str` reads.
pub const DEEPEST: u64 = 127;

/// Whether a value holds no number with a fraction or an exponent, and at most `depth` arrays and
/// objects one inside the other.
pub open spec fn reads_exactly(j: Json, depth: nat) -> bool
    decreases depth,
{
    match j {
        Json::Number(n) => !(n is Real),
        Json::List(items) => depth > 0 && forall|i: int|
            0 <= i < items.len() ==> reads_exactly(#[trigger] items[i], (depth - 1) as nat),
        Json::Object(entries) => depth > 0 && forall|i: int|
            0 <= i < entries.len() ==> reads_exactly((#[trigger] entries[i]).1, (depth - 1) as nat),
        _ => true,
    }
}

/// The contents of each value of a list.
pub open spec fn json_views(v: Seq<serde_json::Value>) -> Seq<Json> {
    v.map_values(|x: serde_json::Value| json_of(x))
}

/// The key and the contents of each pair of a list.
pub open spec fn entry_views(v: Seq<(String, serde_json::Value)>) -> Seq<(Seq<char>, Json)> {
    v.map_values(|p: (String, serde_json::Value)| (p.0@, json_of(p.1)))
}

/// `serde_json::from_str` into a `serde_json::Value`: it succeeds on the texts that are JSON, with
/// a value that depends on the text alone. It refuses all others; the words that its error is
/// displayed with depend on the text alone.
#[verifier::external_body]
pub(crate) fn parse_json(text: &str) -> (r: Result<serde_json::Value, String>)
    ensures
        match r {
            Ok(v) => parsed_json(text@) == Some(json_of(v)),
            Err(words) => parsed_json(text@) is None && words@ == refusal_text(text@),
        },
{
    match serde_json::from_str::<serde_json::Value>(text) {
        Ok(v) => Ok(v),
        Err(e) => Err(e.to_string()),
    }
}

/// `serde_json::Value::get` with a string: the member of an object under that key, and nothing
/// where there is none or the value is no object.
#[verifier::external_body]
pub(crate) fn member<'a>(v: &'a serde_json::Value, key: &str) -> (r: Option<&'a serde_json::Value>)
    ensures
        match r {
            Some(x) => member_of(json_of(*v), key@) == Some(json_of(*x)),
            None => member_of(json_of(*v), key@) is None,
        },
{
    v.get(key)
}

/// `serde_json::Value::as_str`: the text of a string value, and nothing for any other.
pub assume_specification[ serde_json::Value::as_str ](v: &serde_json::Value) -> (r: Option<&str>)
    ensures
        match r {
            Some(s) => text_in(json_of(*v)) == Some(s@),
            None => text_in(json_of(*v)) is None,
        },
;

/// `serde_json::Value::as_bool`: the truth value of a boolean, and nothing for any other value.
pub assume_specification[ serde_json::Value::as_bool ](v: &serde_json::Value) -> (r: Option<bool>)
    ensures
        r == flag_in(json_of(*v)),
;

/// `serde_json::Value::is_null`: whether the value is null.
pub assume_specification[ serde_json::Value::is_null ](v: &serde_json::Value) -> (r: bool)
    ensures
        r == (json_of(*v) == Json::Null),
;

/// `serde_json::Value::as_f64`: the number nearest to a numeric value, by its bit pattern, and
/// nothing for any other value.
#[verifier::external_body]
pub(crate) fn number_bits(v: &serde_json::Value) -> (r: Option<u64>)
    ensures
        match r {
            Some(bits) => number_in(json_of(*v)) == Some(Binary64 { bits }),
            None => number_in(json_of(*v)) is None,
        },
{
    match v.as_f64() {
        Some(x) => Some(x.to_bits()),
        None => None,
    }
}

/// `Clone` of `serde_json::Value`: a value with the same contents.
pub assume_specification[ <serde_json::Value as Clone>::clone ](v: &serde_json::Value) -> (r:
    serde_json::Value)
    ensures
        json_of(r) == json_of(*v),
;

/// `serde_json::Value::from` on a string: the string value with that text.
#[verifier::external_body]
pub(crate) fn text_value(s: &str) -> (r: serde_json::Value)
    ensures
        json_of(r) == Json::Text(s@),
{
    serde_json::Value::from(s)
}

/// `serde_json::Value::from` on an unsigned integer: the number value with that value.
#[verifier::external_body]
pub(crate) fn count_value(n: usize) -> (r: serde_json::Value)
    ensures
        json_of(r) == Json::Number(JsonNumber::Natural(n as nat)),
{
    serde_json::Value::from(n)
}

/// `serde_json::Value::from` on a truth value: the boolean with that value.
#[verifier::external_body]
pub(crate) fn flag_value(b: bool) -> (r: serde_json::Value)
    ensures
        json_of(r) == Json::Bool(b),
{
    serde_json::Value::from(b)
}

/// `serde_json::Value::from` on a vector of values: the array of these values, in order.
#[verifier::external_body]
pub(crate) fn list_value(v: Vec<serde_json::Value>) -> (r: serde_json::Value)
    ensures
        json_of(r) == Json::List(json_views(v@)),
{
    serde_json::Value::from(v)
}

/// `serde_json::Value::from_iter` on key-value pairs: the object with these entries. Where the keys
/// differ, the entries keep the order of the pairs, which is what the feature `preserve_order`
/// provides.
#[verifier::external_body]
pub(crate) fn object_value(v: Vec<(String, serde_json::Value)>) -> (r: serde_json::Value)
    ensures
        distinct_keys(entry_views(v@)) ==> json_of(r) == Json::Object(entry_views(v@)),
{
    serde_json::Value::from_iter(v)
}

/// `Display` of `serde_json::Value`: the compact text, which depends on the contents alone and has no
/// whitespace at its ends. `serde_json::from_str` reads the value back from it, if the value is not
/// nested too deep and holds no floating-point number: of those, nothing is claimed.
#[verifier::external_body]
pub(crate) fn value_text(v: &serde_json::Value) -> (s: String)
    ensures
        s@ == json_text(json_of(*v)),
        trim(s@) == s@,
        reads_exactly(json_of(*v), DEEPEST as nat) ==> parsed_json(s@) == Some(json_of(*v)),
{
    v.to_string()
}

} // verus!
