//! JSON values as the engine reads them.

use crate::text::{arg_text, texts};
use vstd::prelude::*;

verus! {

/// `serde_json::Value`, carried as an opaque value.
#[verifier::external_type_specification]
#[verifier::external_body]
pub struct ExValue(serde_json::Value);

/// `Clone` of `serde_json::Value` copies the whole tree: the copy is the value itself.
pub assume_specification[ <serde_json::Value as Clone>::clone ](v: &serde_json::Value) -> (r:
    serde_json::Value)
    ensures
        r == *v,
;

/// What a JSON value holds. A number is held as the bits of its double-precision value.
pub enum JsonTree {
    Null,
    Bool(bool),
    Number(u64),
    Text(Seq<char>),
    Array(Seq<JsonTree>),
    Object(Map<Seq<char>, JsonTree>),
}

/// The contents of a `serde_json::Value`.
pub uninterp spec fn json_tree(v: serde_json::Value) -> JsonTree;

/// What `serde_json::from_str` reads from a text, if it can: JSON that does not nest too deep.
pub uninterp spec fn json_parse(text: Seq<char>) -> Option<JsonTree>;

/// The member `key` of an object; null for anything else.
pub open spec fn member_of(tree: JsonTree, key: Seq<char>) -> JsonTree {
    match tree {
        JsonTree::Object(m) => if m.contains_key(key) {
            m[key]
        } else {
            JsonTree::Null
        },
        _ => JsonTree::Null,
    }
}

/// The text of a string; nothing for any other value.
pub open spec fn text_of(tree: JsonTree) -> Option<Seq<char>> {
    match tree {
        JsonTree::Text(s) => Some(s),
        _ => None,
    }
}

/// The bits of a number in double precision; nothing for any other value.
pub open spec fn number_of(tree: JsonTree) -> Option<u64> {
    match tree {
        JsonTree::Number(bits) => Some(bits),
        _ => None,
    }
}

/// The elements of an array; nothing for any other value.
pub open spec fn items_of(tree: JsonTree) -> Option<Seq<JsonTree>> {
    match tree {
        JsonTree::Array(a) => Some(a),
        _ => None,
    }
}

/// The contents of a list of values.
pub open spec fn json_trees(list: Seq<serde_json::Value>) -> Seq<JsonTree> {
    list.map_values(|v: serde_json::Value| json_tree(v))
}

/// `serde_json::from_str` into a `Value`: what it reads, and whether it fails, is a function of the
/// text.
#[verifier::external_body]
pub(crate) fn parse_value(text: &str) -> (r: Option<serde_json::Value>)
    ensures
        match r {
            Some(v) => json_parse(text@) == Some(json_tree(v)),
            None => json_parse(text@) is None,
        },
{
    serde_json::from_str::<serde_json::Value>(text).ok()
}

/// Indexing a `serde_json::Value` by a key: the member of that name, or null.
#[verifier::external_body]
pub(crate) fn member<'a>(v: &'a serde_json::Value, key: &str) -> (r: &'a serde_json::Value)
    ensures
        json_tree(*r) == member_of(json_tree(*v), key@),
{
    &v[key]
}

/// `serde_json::Value::as_str`: the text of a string, and nothing for any other value.
#[verifier::external_body]
pub(crate) fn as_text(v: &serde_json::Value) -> (r: Option<&str>)
    ensures
        match r {
            Some(s) => text_of(json_tree(*v)) == Some(s@),
            None => text_of(json_tree(*v)) is None,
        },
{
    v.as_str()
}

/// `serde_json::Value::as_array`: the elements of an array, and nothing for any other value.
#[verifier::external_body]
pub(crate) fn as_items(v: &serde_json::Value) -> (r: Option<&Vec<serde_json::Value>>)
    ensures
        match r {
            Some(a) => items_of(json_tree(*v)) == Some(json_trees(a@)),
            None => items_of(json_tree(*v)) is None,
        },
{
    v.as_array()
}

/// `serde_json::Value::as_f64`, as bits: the value of a number in double precision, and nothing
/// for any other value.
#[verifier::external_body]
pub(crate) fn as_number(v: &serde_json::Value) -> (r: Option<u64>)
    ensures
        r == number_of(json_tree(*v)),
{
    v.as_f64().map(|x| x.to_bits())
}

// ── lists in files ───────────────────────────────────────────────────────────

/// What `serde_json::from_str` reads from a text as a list of strings, if it is one.
pub uninterp spec fn json_texts(text: Seq<char>) -> Option<Seq<Seq<char>>>;

/// What `serde_json::from_str` reads from a text as a list of strings and nulls, if it is one.
pub uninterp spec fn json_opt_texts(text: Seq<char>) -> Option<Seq<Option<Seq<char>>>>;

/// What `serde_json::from_str` reads from a text as a list of 64-bit numbers, if it is one.
pub uninterp spec fn json_numbers(text: Seq<char>) -> Option<Seq<u64>>;

/// What `serde_json::from_str` reads from a text as a list of pairs of 32-bit numbers, if it is one.
pub uninterp spec fn json_pairs(text: Seq<char>) -> Option<Seq<(u32, u32)>>;

/// `serde_json::from_str` into a `Vec<String>`: what it reads is a function of the text.
#[verifier::external_body]
pub(crate) fn parse_texts(text: &str) -> (r: Option<Vec<String>>)
    ensures
        match r {
            Some(v) => json_texts(text@) == Some(texts(v@)),
            None => json_texts(text@) is None,
        },
{
    serde_json::from_str::<Vec<String>>(text).ok()
}

/// `serde_json::from_str` into a `Vec<Option<String>>`: what it reads is a function of the text.
#[verifier::external_body]
pub(crate) fn parse_opt_texts(text: &str) -> (r: Option<Vec<Option<String>>>)
    ensures
        match r {
            Some(v) => json_opt_texts(text@) == Some(opt_texts(v@)),
            None => json_opt_texts(text@) is None,
        },
{
    serde_json::from_str::<Vec<Option<String>>>(text).ok()
}

/// `serde_json::from_str` into a `Vec<u64>`: what it reads is a function of the text.
#[verifier::external_body]
pub(crate) fn parse_numbers(text: &str) -> (r: Option<Vec<u64>>)
    ensures
        match r {
            Some(v) => json_numbers(text@) == Some(v@),
            None => json_numbers(text@) is None,
        },
{
    serde_json::from_str::<Vec<u64>>(text).ok()
}

/// `serde_json::from_str` into a `Vec<(u32, u32)>`: what it reads is a function of the text.
#[verifier::external_body]
pub(crate) fn parse_pairs(text: &str) -> (r: Option<Vec<(u32, u32)>>)
    ensures
        match r {
            Some(v) => json_pairs(text@) == Some(v@),
            None => json_pairs(text@) is None,
        },
{
    serde_json::from_str::<Vec<(u32, u32)>>(text).ok()
}

/// `serde_json::to_string` of a list of strings, which does not fail: reading the text gives the
/// list back.
#[verifier::external_body]
pub(crate) fn write_texts(list: &Vec<String>) -> (r: String)
    ensures
        json_texts(r@) == Some(texts(list@)),
{
    serde_json::to_string(list).unwrap_or_default()
}

/// `serde_json::to_string` of a list of optional strings, which does not fail: reading the text
/// gives the list back.
#[verifier::external_body]
pub(crate) fn write_opt_texts(list: &Vec<Option<String>>) -> (r: String)
    ensures
        json_opt_texts(r@) == Some(opt_texts(list@)),
{
    serde_json::to_string(list).unwrap_or_default()
}

/// `serde_json::to_string` of a list of numbers, which does not fail: reading the text gives the
/// list back.
#[verifier::external_body]
pub(crate) fn write_numbers(list: &Vec<u64>) -> (r: String)
    ensures
        json_numbers(r@) == Some(list@),
{
    serde_json::to_string(list).unwrap_or_default()
}

/// `serde_json::to_string` of a list of pairs, which does not fail: reading the text gives the list
/// back.
#[verifier::external_body]
pub(crate) fn write_pairs(list: &Vec<(u32, u32)>) -> (r: String)
    ensures
        json_pairs(r@) == Some(list@),
{
    serde_json::to_string(list).unwrap_or_default()
}

/// The texts in a list.
pub open spec fn opt_texts(list: Seq<Option<String>>) -> Seq<Option<Seq<char>>> {
    list.map_values(
        |s: Option<String>|
            match s {
                Some(t) => Some(t@),
                None => None,
            },
    )
}

/// The strings of a file: none where the file is missing or holds no list of strings.
pub open spec fn file_texts(file: Option<Seq<char>>) -> Seq<Seq<char>> {
    match file {
        Some(text) => match json_texts(text) {
            Some(list) => list,
            None => Seq::empty(),
        },
        None => Seq::empty(),
    }
}

/// Reads the strings of a file that may be missing.
pub fn optional_texts(file: Option<&str>) -> (r: Vec<String>)
    ensures
        texts(r@) == file_texts(arg_text(file)),
{
    if let Some(text) = file {
        if let Some(list) = parse_texts(text) {
            return list;
        }
    }
    let none: Vec<String> = Vec::new();
    proof {
        assert(texts(none@) =~= Seq::empty());
    }
    none
}

/// The optional strings of a file: none where the file is missing or holds no such list.
pub open spec fn file_opt_texts(file: Option<Seq<char>>) -> Seq<Option<Seq<char>>> {
    match file {
        Some(text) => match json_opt_texts(text) {
            Some(list) => list,
            None => Seq::empty(),
        },
        None => Seq::empty(),
    }
}

/// Reads the optional strings of a file that may be missing.
pub fn optional_opt_texts(file: Option<&str>) -> (r: Vec<Option<String>>)
    ensures
        opt_texts(r@) == file_opt_texts(arg_text(file)),
{
    if let Some(text) = file {
        if let Some(list) = parse_opt_texts(text) {
            return list;
        }
    }
    let none: Vec<Option<String>> = Vec::new();
    proof {
        assert(opt_texts(none@) =~= Seq::empty());
    }
    none
}

/// The numbers of a file: none where the file is missing or holds no list of numbers.
pub open spec fn file_numbers(file: Option<Seq<char>>) -> Seq<u64> {
    match file {
        Some(text) => match json_numbers(text) {
            Some(list) => list,
            None => Seq::empty(),
        },
        None => Seq::empty(),
    }
}

/// Reads the numbers of a file that may be missing.
pub fn optional_numbers(file: Option<&str>) -> (r: Vec<u64>)
    ensures
        r@ == file_numbers(arg_text(file)),
{
    if let Some(text) = file {
        if let Some(list) = parse_numbers(text) {
            return list;
        }
    }
    Vec::new()
}

/// What a list of values holds is what each of them holds, in order.
pub proof fn law_lists_hold_their_values(list: Seq<serde_json::Value>, i: int)
    requires
        0 <= i < list.len(),
    ensures
        json_trees(list).len() == list.len(),
        json_trees(list)[i] == json_tree(list[i]),
{
}

/// The member of an object is what stands under its key; anything else has only null members. Only a
/// string has a text, only a number a value, and only an array elements.
pub proof fn law_values_are_what_they_are(tree: JsonTree, key: Seq<char>)
    ensures
        match tree {
            JsonTree::Object(m) => member_of(tree, key) == (if m.contains_key(key) {
                m[key]
            } else {
                JsonTree::Null
            }),
            _ => member_of(tree, key) == JsonTree::Null,
        },
        text_of(tree) is Some <==> tree is Text,
        tree matches JsonTree::Text(s) ==> text_of(tree) == Some(s),
        number_of(tree) is Some <==> tree is Number,
        tree matches JsonTree::Number(n) ==> number_of(tree) == Some(n),
        items_of(tree) is Some <==> tree is Array,
        tree matches JsonTree::Array(a) ==> items_of(tree) == Some(a),
{
}

/// A list of optional texts holds each of them, in order.
pub proof fn law_optional_texts_are_kept(list: Seq<Option<String>>, i: int)
    requires
        0 <= i < list.len(),
    ensures
        opt_texts(list).len() == list.len(),
        opt_texts(list)[i] is Some <==> list[i] is Some,
        list[i] matches Some(s) ==> opt_texts(list)[i] == Some(s@),
{
}

/// A file that is missing or cannot be read as a list counts as empty; any other gives its list.
pub proof fn law_missing_files_count_as_empty(text: Seq<char>)
    ensures
        file_texts(None).len() == 0,
        file_opt_texts(None).len() == 0,
        file_numbers(None).len() == 0,
        match json_texts(text) {
            Some(list) => file_texts(Some(text)) == list,
            None => file_texts(Some(text)).len() == 0,
        },
        match json_opt_texts(text) {
            Some(list) => file_opt_texts(Some(text)) == list,
            None => file_opt_texts(Some(text)).len() == 0,
        },
        match json_numbers(text) {
            Some(list) => file_numbers(Some(text)) == list,
            None => file_numbers(Some(text)).len() == 0,
        },
{
}

} // verus!
