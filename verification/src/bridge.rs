//! What the library has from `serde_json` and from `std` without proof: the types that it
//! takes as they are, and the calls whose results it takes on trust.

use vstd::prelude::*;
use crate::value::{Json, JsonVal, Row};

verus! {

/// `serde_json::Number`, taken as it is: a JSON number, of which nothing is looked into here.
#[verifier::external_type_specification]
#[verifier::external_body]
pub struct ExNumber(serde_json::Number);

/// `serde_json::Value`, taken as it is: what `serde_json` reads and prints.
#[verifier::external_type_specification]
#[verifier::external_body]
pub struct ExDocument(serde_json::Value);

/// `Clone` of `serde_json::Number`: the clone is the same number.
pub assume_specification[ <serde_json::Number as Clone>::clone ](n: &serde_json::Number) -> (r:
    serde_json::Number)
    ensures
        r == *n,
;

/// `str::eq`: two strings are equal when they hold the same characters.
#[verifier::external_body]
pub(crate) fn same_text(a: &str, b: &str) -> (r: bool)
    ensures
        r == (a@ == b@),
{
    a == b
}

/// Whether `serde_json` takes two numbers for equal.
pub uninterp spec fn number_eq(a: serde_json::Number, b: serde_json::Number) -> bool;

/// `PartialEq` of `serde_json::Number`: whether the two numbers are equal.
#[verifier::external_body]
pub(crate) fn same_number(a: &serde_json::Number, b: &serde_json::Number) -> (r: bool)
    ensures
        r == number_eq(*a, *b),
{
    a == b
}

/// What a `serde_json::Value` holds: the document, the members of an object in the order in
/// which its map hands them out.
pub uninterp spec fn content(doc: serde_json::Value) -> Json;

/// Turns a `serde_json::Value` into a `JsonVal`, variant for variant, so that the result holds
/// what the document holds.
#[verifier::external_body]
pub(crate) fn lift(doc: serde_json::Value) -> (r: JsonVal)
    ensures
        r@ == content(doc),
{
    match doc {
        serde_json::Value::Null => JsonVal::Null,
        serde_json::Value::Bool(b) => JsonVal::Bool(b),
        serde_json::Value::Number(n) => JsonVal::Number(n),
        serde_json::Value::String(s) => JsonVal::String(s),
        serde_json::Value::Array(a) => JsonVal::Array(a.into_iter().map(lift).collect()),
        serde_json::Value::Object(m) => JsonVal::Object(
            Row { entries: m.into_iter().map(|(k, v)| (k, lift(v))).collect() },
        ),
    }
}

/// Turns a `JsonVal` into a `serde_json::Value`, variant for variant, so that the result holds
/// what the value holds: the map of an object keeps the order in which it is filled, and no
/// row holds a name twice.
#[verifier::external_body]
pub(crate) fn lower(val: &JsonVal) -> (r: serde_json::Value)
    ensures
        content(r) == val@,
{
    match val {
        JsonVal::Null => serde_json::Value::Null,
        JsonVal::Bool(b) => serde_json::Value::Bool(*b),
        JsonVal::Number(n) => serde_json::Value::Number(n.clone()),
        JsonVal::String(s) => serde_json::Value::String(s.clone()),
        JsonVal::Array(a) => serde_json::Value::Array(a.iter().map(lower).collect()),
        JsonVal::Object(r) => serde_json::Value::Object(
            r.entries.iter().map(|e| (e.0.clone(), lower(&e.1))).collect(),
        ),
    }
}

/// The document that `serde_json::from_str` reads from a text, if the text is one JSON
/// document.
pub uninterp spec fn parsed(text: Seq<char>) -> Option<Json>;

/// `serde_json::from_str` at `serde_json::Value`: the document that the text holds, or `None`
/// where the text is not one JSON document.
#[verifier::external_body]
pub(crate) fn read_document(text: &str) -> (r: Option<serde_json::Value>)
    ensures
        match r {
            Some(doc) => parsed(text@) == Some(content(doc)),
            None => parsed(text@) is None,
        },
{
    serde_json::from_str::<serde_json::Value>(text).ok()
}

/// The compact text that `serde_json` prints for a document.
pub uninterp spec fn printed(doc: Json) -> Seq<char>;

/// `Display` of `serde_json::Value`: the compact text of the document.
#[verifier::external_body]
pub(crate) fn print_document(doc: &serde_json::Value) -> (s: String)
    ensures
        s@ == printed(content(*doc)),
{
    doc.to_string()
}

/// The number that `serde_json::Number::from` makes of a count.
pub uninterp spec fn counted(n: usize) -> serde_json::Number;

/// `serde_json::Number::from` at `usize`: the number that stands for a count.
#[verifier::external_body]
pub(crate) fn count(n: usize) -> (r: serde_json::Number)
    ensures
        r == counted(n),
{
    serde_json::Number::from(n)
}

} // verus!
