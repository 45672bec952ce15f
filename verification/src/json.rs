//! Reading values out of JSON text by JSON Pointer (RFC 6901).
//!
//! Parsing is serde_json's; which values to read is decided by verified
//! callers, which name the path of each value they read.

use serde_json::Value;
use vstd::prelude::*;

use crate::text::{push_decimal, push_str};

verus! {

/// The kind of JSON value found at a pointer, with what the readers need of
/// it: a number as an unsigned 64-bit integer when it is one, a string's
/// text, an array's length.
pub enum JsonItem {
    Null,
    Bool(bool),
    Number(Option<u64>),
    Text(String),
    Array(usize),
    Object,
}

/// A found JSON value, as text.
pub enum ItemView {
    Null,
    Bool(bool),
    Number(Option<u64>),
    Text(Seq<char>),
    Array(usize),
    Object,
}

/// A found JSON value as text.
pub open spec fn item_view(i: JsonItem) -> ItemView {
    match i {
        JsonItem::Null => ItemView::Null,
        JsonItem::Bool(b) => ItemView::Bool(b),
        JsonItem::Number(n) => ItemView::Number(n),
        JsonItem::Text(s) => ItemView::Text(s@),
        JsonItem::Array(n) => ItemView::Array(n),
        JsonItem::Object => ItemView::Object,
    }
}

/// What the JSON text `text` holds at the JSON Pointer `pointer`: the parse
/// error's message when the text is no JSON, `None` when nothing is there.
pub uninterp spec fn json_lookup(text: Seq<char>, pointer: Seq<char>) -> Result<Option<ItemView>, Seq<char>>;

/// Looks up a JSON Pointer in JSON text.
///
/// Trusted: calls `serde_json::from_str` into a `serde_json::Value` (whose
/// error becomes its message) and `Value::pointer`, and tells the variants of
/// the value found apart (a number through `as_u64`, an array by its length).
/// The contract names the result as a function of the two texts.
#[verifier::external_body]
fn json_item_at(text: &str, pointer: &str) -> (r: Result<Option<JsonItem>, String>)
    ensures
        json_lookup(text@, pointer@) == match r {
            Ok(Some(i)) => Ok(Some(item_view(i))),
            Ok(None) => Ok(None),
            Err(e) => Err::<Option<ItemView>, Seq<char>>(e@),
        },
{
    let v: Value = serde_json::from_str(text).map_err(|e| e.to_string())?;
    Ok(v.pointer(pointer).map(|item| match item {
        Value::Null => JsonItem::Null,
        Value::Bool(b) => JsonItem::Bool(*b),
        Value::Number(n) => JsonItem::Number(n.as_u64()),
        Value::String(s) => JsonItem::Text(s.clone()),
        Value::Array(a) => JsonItem::Array(a.len()),
        Value::Object(_) => JsonItem::Object,
    }))
}

/// The string at `pointer`, if a string is there.
pub open spec fn text_at(text: Seq<char>, pointer: Seq<char>) -> Option<Seq<char>> {
    match json_lookup(text, pointer) {
        Ok(Some(ItemView::Text(s))) => Some(s),
        _ => None,
    }
}

/// The unsigned integer at `pointer`, if one is there.
pub open spec fn u64_at(text: Seq<char>, pointer: Seq<char>) -> Option<u64> {
    match json_lookup(text, pointer) {
        Ok(Some(ItemView::Number(n))) => n,
        _ => None,
    }
}

/// The length of the array at `pointer`, if an array is there.
pub open spec fn len_at(text: Seq<char>, pointer: Seq<char>) -> Option<usize> {
    match json_lookup(text, pointer) {
        Ok(Some(ItemView::Array(n))) => Some(n),
        _ => None,
    }
}

/// Whether some value is at `pointer`.
pub open spec fn found_at(text: Seq<char>, pointer: Seq<char>) -> bool {
    json_lookup(text, pointer) matches Ok(Some(_))
}

/// The string at `pointer`, if a string is there.
pub fn read_text(text: &str, pointer: &str) -> (r: Option<String>)
    ensures
        match r {
            Some(s) => text_at(text@, pointer@) == Some(s@),
            None => text_at(text@, pointer@) is None,
        },
{
    match json_item_at(text, pointer) {
        Ok(Some(JsonItem::Text(s))) => Some(s),
        _ => None,
    }
}

/// The unsigned integer at `pointer`, if one is there.
pub fn read_u64(text: &str, pointer: &str) -> (r: Option<u64>)
    ensures
        r == u64_at(text@, pointer@),
{
    match json_item_at(text, pointer) {
        Ok(Some(JsonItem::Number(n))) => n,
        _ => None,
    }
}

/// The length of the array at `pointer`, if an array is there.
pub fn read_len(text: &str, pointer: &str) -> (r: Option<usize>)
    ensures
        r == len_at(text@, pointer@),
{
    match json_item_at(text, pointer) {
        Ok(Some(JsonItem::Array(n))) => Some(n),
        _ => None,
    }
}

/// Whether some value is at `pointer`.
pub fn read_found(text: &str, pointer: &str) -> (b: bool)
    ensures
        b == found_at(text@, pointer@),
{
    match json_item_at(text, pointer) {
        Ok(Some(_)) => true,
        _ => false,
    }
}

/// The message of the parse error when `text` is no JSON.
pub fn parse_error(text: &str) -> (r: Option<String>)
    ensures
        match r {
            Some(e) => json_lookup(text@, Seq::empty()) == Err::<Option<ItemView>, Seq<char>>(e@),
            None => json_lookup(text@, Seq::empty()) is Ok,
        },
{
    let root = String::new();
    match json_item_at(text, root.as_str()) {
        Err(e) => Some(e),
        Ok(_) => None,
    }
}

/// The pointer `base` followed by the array index `i`.
pub fn index_pointer(base: &str, i: usize) -> (p: String)
    ensures
        p@ == base@ + "/"@ + crate::text::decimal(i as nat),
{
    let mut p = String::new();
    push_str(&mut p, base);
    push_str(&mut p, "/");
    push_decimal(&mut p, i as u64);
    p
}

} // verus!
