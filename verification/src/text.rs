//! Text: a graph written as a JSON document and read back from one.
//! `serde_json` parses and prints; what it returns is named here and taken
//! on trust, and the conversions between its values and plain trees are proved.

use vstd::prelude::*;
use vstd::string::*;
use crate::deflate::{deflate, deflate_spec};
use crate::error::CodecError;
use crate::graph::GraphValue;
use crate::inflate::{inflate, inflate_spec};
use crate::keys::sorted;
use crate::number::MAX_REF_ID;
use crate::tree::{
    canonical, items_view, lemma_view_array, lemma_view_object, members_view, JsonValue, Tree,
};

verus! {

/// `serde_json::Value`: a JSON value. What it holds is named `value_tree`.
#[verifier::external_type_specification]
#[verifier::external_body]
pub struct ExValue(serde_json::Value);

/// `serde_json::Error`: why a text was not parsed or a value not printed.
/// Nothing is known of it but its message.
#[verifier::external_type_specification]
#[verifier::external_body]
pub struct ExError(serde_json::Error);

/// What a `serde_json::Value` holds, as a plain tree: the members of an
/// object in the order in which the value walks them.
pub uninterp spec fn value_tree(v: serde_json::Value) -> Tree;

/// What `serde_json::from_str` makes of a text: the tree of the value it
/// returns, or `None` where it reports an error.
pub uninterp spec fn parsed(text: Seq<char>) -> Option<Tree>;

/// What `serde_json::to_string` makes of a value that holds the tree: the
/// text, or `None` where it reports an error.
pub uninterp spec fn printed(t: Tree) -> Option<Seq<char>>;

/// One level of a `serde_json::Value`, borrowed from it.
pub enum Opened<'a> {
    Null,
    Bool(bool),
    Number(&'a serde_json::Number),
    String(&'a String),
    Array(Vec<&'a serde_json::Value>),
    Object(Vec<(&'a String, &'a serde_json::Value)>),
}

/// One level of a `serde_json::Value` to be made.
pub enum Parts {
    Null,
    Bool(bool),
    Number(serde_json::Number),
    String(String),
    Array(Vec<serde_json::Value>),
    Object(Vec<(String, serde_json::Value)>),
}

/// The tree that the borrowed level stands for.
pub open spec fn opened_tree(o: Opened) -> Tree {
    match o {
        Opened::Null => Tree::Null,
        Opened::Bool(b) => Tree::Bool(b),
        Opened::Number(n) => Tree::Number(*n),
        Opened::String(s) => Tree::String(s@),
        Opened::Array(items) => Tree::Array(
            Seq::new(items@.len(), |i: int| value_tree(*items@[i])),
        ),
        Opened::Object(members) => Tree::Object(
            Seq::new(members@.len(), |i: int| (members@[i].0@, value_tree(*members@[i].1))),
        ),
    }
}

/// The tree that the level to be made stands for.
pub open spec fn parts_tree(p: Parts) -> Tree {
    match p {
        Parts::Null => Tree::Null,
        Parts::Bool(b) => Tree::Bool(b),
        Parts::Number(n) => Tree::Number(n),
        Parts::String(s) => Tree::String(s@),
        Parts::Array(items) => Tree::Array(Seq::new(items@.len(), |i: int| value_tree(items@[i]))),
        Parts::Object(members) => Tree::Object(
            Seq::new(members@.len(), |i: int| (members@[i].0@, value_tree(members@[i].1))),
        ),
    }
}

/// `serde_json::from_str` at the type `serde_json::Value`: whether it
/// succeeds and what the value holds depend on the text alone.
#[verifier::external_body]
fn parse_value(text: &str) -> (r: Result<serde_json::Value, serde_json::Error>)
    ensures
        r matches Ok(v) ==> parsed(text@) == Some(value_tree(v)),
        r is Err ==> parsed(text@) is None,
{
    serde_json::from_str::<serde_json::Value>(text)
}

/// `serde_json::to_string` on a `serde_json::Value`: whether it succeeds
/// and the text depend on what the value holds alone.
#[verifier::external_body]
fn print_value(v: &serde_json::Value) -> (r: Result<String, serde_json::Error>)
    ensures
        r matches Ok(s) ==> printed(value_tree(*v)) == Some(s@),
        r is Err ==> printed(value_tree(*v)) is None,
{
    serde_json::to_string(v)
}

/// The message of a `serde_json::Error`, by its `to_string`.
#[verifier::external_body]
fn error_text(e: &serde_json::Error) -> (r: String) {
    e.to_string()
}

/// The variants of `serde_json::Value`, told apart: each hands out what it
/// holds, an object its members in the order in which it walks them.
#[verifier::external_body]
fn open_value<'a>(v: &'a serde_json::Value) -> (r: Opened<'a>)
    ensures
        opened_tree(r) == value_tree(*v),
{
    match v {
        serde_json::Value::Null => Opened::Null,
        serde_json::Value::Bool(b) => Opened::Bool(*b),
        serde_json::Value::Number(n) => Opened::Number(n),
        serde_json::Value::String(s) => Opened::String(s),
        serde_json::Value::Array(items) => Opened::Array(items.iter().collect()),
        serde_json::Value::Object(members) => Opened::Object(members.iter().collect()),
    }
}

/// The variants of `serde_json::Value`, made: each holds what it is given.
/// An object is made of members in canonical order, which is the order in
/// which it then walks them.
#[verifier::external_body]
fn close_value(p: Parts) -> (r: serde_json::Value)
    requires
        p is Object ==> sorted(parts_tree(p)->Object_0),
    ensures
        value_tree(r) == parts_tree(p),
{
    match p {
        Parts::Null => serde_json::Value::Null,
        Parts::Bool(b) => serde_json::Value::Bool(b),
        Parts::Number(n) => serde_json::Value::Number(n),
        Parts::String(s) => serde_json::Value::String(s),
        Parts::Array(items) => serde_json::Value::Array(items),
        Parts::Object(members) => serde_json::Value::Object(members.into_iter().collect()),
    }
}

/// The plain tree that a `serde_json::Value` holds.
fn from_value(v: &serde_json::Value) -> (r: JsonValue)
    ensures
        r@ == value_tree(*v),
    decreases value_tree(*v),
{
    let opened = open_value(v);
    let ghost t = value_tree(*v);
    match opened {
        Opened::Null => JsonValue::Null,
        Opened::Bool(b) => JsonValue::Bool(b),
        Opened::Number(n) => JsonValue::Number(n.clone()),
        Opened::String(s) => JsonValue::String(s.clone()),
        Opened::Array(values) => {
            let ghost trees = t->Array_0;
            let mut items: Vec<JsonValue> = Vec::new();
            let mut i: usize = 0;
            while i < values.len()
                invariant
                    i <= values@.len(),
                    t == Tree::Array(trees),
                    t == value_tree(*v),
                    trees.len() == values@.len(),
                    forall|j: int| 0 <= j < values@.len() ==> trees[j] == value_tree(*values@[j]),
                    items@.len() == i,
                    forall|j: int| 0 <= j < i ==> (#[trigger] items@[j])@ == trees[j],
                decreases values@.len() - i,
            {
                assert(t->Array_0 == trees);
                assert(decreases_to!(t => t->Array_0));
                assert(decreases_to!(trees => trees[i as int]));
                let item = from_value(values[i]);
                items.push(item);
                i += 1;
            }
            let r = JsonValue::Array(items);
            proof {
                lemma_view_array(r);
                assert(items_view(items@) =~= trees);
            }
            r
        },
        Opened::Object(values) => {
            let ghost trees = t->Object_0;
            let mut members: Vec<(String, JsonValue)> = Vec::new();
            let mut i: usize = 0;
            while i < values.len()
                invariant
                    i <= values@.len(),
                    t == Tree::Object(trees),
                    t == value_tree(*v),
                    trees.len() == values@.len(),
                    forall|j: int|
                        0 <= j < values@.len() ==> trees[j] == (
                            values@[j].0@,
                            value_tree(*values@[j].1),
                        ),
                    members@.len() == i,
                    forall|j: int|
                        0 <= j < i ==> (#[trigger] members@[j]).0@ == trees[j].0 && members@[j].1@
                            == trees[j].1,
                decreases values@.len() - i,
            {
                assert(t->Object_0 == trees);
                assert(decreases_to!(t => t->Object_0));
                assert(decreases_to!(trees => trees[i as int]));
                assert(decreases_to!(trees[i as int] => trees[i as int].1));
                let item = from_value(values[i].1);
                members.push((values[i].0.clone(), item));
                i += 1;
            }
            let r = JsonValue::Object(members);
            proof {
                lemma_view_object(r);
                assert(members_view(members@) =~= trees);
            }
            r
        },
    }
}

/// A `serde_json::Value` that holds the plain tree.
fn to_value(j: &JsonValue) -> (r: serde_json::Value)
    requires
        canonical(j@),
    ensures
        value_tree(r) == j@,
    decreases j@,
{
    match j {
        JsonValue::Null => close_value(Parts::Null),
        JsonValue::Bool(b) => close_value(Parts::Bool(*b)),
        JsonValue::Number(n) => close_value(Parts::Number(n.clone())),
        JsonValue::String(s) => close_value(Parts::String(s.clone())),
        JsonValue::Array(items) => {
            let ghost trees = items_view(items@);
            proof {
                lemma_view_array(*j);
            }
            let mut values: Vec<serde_json::Value> = Vec::new();
            let mut i: usize = 0;
            while i < items.len()
                invariant
                    i <= items@.len(),
                    j@ == Tree::Array(trees),
                    canonical(j@),
                    trees == items_view(items@),
                    values@.len() == i,
                    forall|k: int| 0 <= k < i ==> value_tree(#[trigger] values@[k]) == trees[k],
                decreases items@.len() - i,
            {
                assert(trees[i as int] == items@[i as int]@);
                assert(j@->Array_0 == trees);
                assert(decreases_to!(j@ => j@->Array_0));
                assert(decreases_to!(trees => trees[i as int]));
                assert(canonical(trees[i as int]));
                let v = to_value(&items[i]);
                values.push(v);
                i += 1;
            }
            let p = Parts::Array(values);
            proof {
                assert(parts_tree(p)->Array_0 =~= trees);
            }
            close_value(p)
        },
        JsonValue::Object(members) => {
            let ghost trees = members_view(members@);
            proof {
                lemma_view_object(*j);
            }
            let mut values: Vec<(String, serde_json::Value)> = Vec::new();
            let mut i: usize = 0;
            while i < members.len()
                invariant
                    i <= members@.len(),
                    j@ == Tree::Object(trees),
                    canonical(j@),
                    trees == members_view(members@),
                    values@.len() == i,
                    forall|k: int|
                        0 <= k < i ==> (#[trigger] values@[k]).0@ == trees[k].0 && value_tree(
                            values@[k].1,
                        ) == trees[k].1,
                decreases members@.len() - i,
            {
                assert(trees[i as int].1 == members@[i as int].1@);
                assert(j@->Object_0 == trees);
                assert(decreases_to!(j@ => j@->Object_0));
                assert(decreases_to!(trees => trees[i as int]));
                assert(decreases_to!(trees[i as int] => trees[i as int].1));
                assert(canonical(trees[i as int].1));
                let v = to_value(&members[i].1);
                values.push((members[i].0.clone(), v));
                i += 1;
            }
            let p = Parts::Object(values);
            proof {
                assert(parts_tree(p)->Object_0 =~= trees);
            }
            close_value(p)
        },
    }
}

/// Reads a text as a plain tree.
///
/// Fails with the parser's message where the text is no JSON document.
pub fn parse(text: &str) -> (r: Result<JsonValue, CodecError>)
    ensures
        match parsed(text@) {
            None => r matches Err(CodecError::Syntax(_)),
            Some(t) => r matches Ok(j) && j@ == t,
        },
{
    match parse_value(text) {
        Err(e) => Err(CodecError::Syntax(error_text(&e))),
        Ok(v) => Ok(from_value(&v)),
    }
}

/// Encodes a value and writes the encoding as text.
///
/// Fails as `deflate` does, or with the printer's message where the
/// encoding cannot be written.
pub fn dumps(value: &GraphValue) -> (r: Result<String, CodecError>)
    requires
        value@.wf(),
    ensures
        match deflate_spec(value@, MAX_REF_ID) {
            Err(e) => r == Err::<String, CodecError>(e),
            Ok(t) => match printed(t) {
                Some(s) => r matches Ok(text) && text@ == s,
                None => r matches Err(CodecError::Serialize(_)),
            },
        },
{
    match deflate(value) {
        Err(e) => Err(e),
        Ok(j) => {
            let v = to_value(&j);
            match print_value(&v) {
                Ok(text) => Ok(text),
                Err(e) => Err(CodecError::Serialize(error_text(&e))),
            }
        },
    }
}

/// Reads a text as a document and decodes it.
///
/// Fails with the parser's message where the text is no JSON document, and
/// else as `inflate` does.
pub fn loads(text: &str) -> (r: Result<GraphValue, CodecError>)
    ensures
        match parsed(text@) {
            None => r matches Err(CodecError::Syntax(_)),
            Some(t) => match inflate_spec(t) {
                Ok(g) => r matches Ok(v) && v@ == g && v@.wf(),
                Err(e) => r == Err::<GraphValue, CodecError>(e),
            },
        },
{
    match parse(text) {
        Err(e) => Err(e),
        Ok(j) => inflate(&j),
    }
}

} // verus!
