//! Plain trees: the acyclic values that an encoded document is made of.

use vstd::prelude::*;
use crate::keys::sorted;

verus! {

/// A plain tree as a mathematical value.
pub enum Tree {
    Null,
    Bool(bool),
    Number(serde_json::Number),
    String(Seq<char>),
    Array(Seq<Tree>),
    /// The members in the order in which they are held.
    Object(Seq<(Seq<char>, Tree)>),
}

/// A plain tree: null, a boolean, a number, a string, an array of plain
/// trees, or an object whose members are plain trees.
#[derive(Debug, PartialEq)]
pub enum JsonValue {
    Null,
    Bool(bool),
    Number(serde_json::Number),
    String(String),
    Array(Vec<JsonValue>),
    Object(Vec<(String, JsonValue)>),
}

/// What a plain tree is as a mathematical value.
pub open spec fn tree_of(v: JsonValue) -> Tree
    decreases v,
{
    match v {
        JsonValue::Null => Tree::Null,
        JsonValue::Bool(b) => Tree::Bool(b),
        JsonValue::Number(n) => Tree::Number(n),
        JsonValue::String(s) => Tree::String(s@),
        JsonValue::Array(items) => Tree::Array(
            Seq::new(
                items@.len(),
                |i: int|
                    if 0 <= i < items@.len() {
                        tree_of(items@[i])
                    } else {
                        Tree::Null
                    },
            ),
        ),
        JsonValue::Object(members) => Tree::Object(
            Seq::new(
                members@.len(),
                |i: int|
                    if 0 <= i < members@.len() {
                        (members@[i].0@, tree_of(members@[i].1))
                    } else {
                        (members@[i].0@, Tree::Null)
                    },
            ),
        ),
    }
}

impl View for JsonValue {
    type V = Tree;

    open spec fn view(&self) -> Tree {
        tree_of(*self)
    }
}

/// The elements of an array, each as a mathematical value.
pub open spec fn items_view(items: Seq<JsonValue>) -> Seq<Tree> {
    Seq::new(items.len(), |i: int| items[i]@)
}

/// The members of an object, each as a mathematical value.
pub open spec fn members_view(members: Seq<(String, JsonValue)>) -> Seq<(Seq<char>, Tree)> {
    Seq::new(members.len(), |i: int| (members[i].0@, members[i].1@))
}

/// An array is seen as the array of what its elements are seen as.
pub proof fn lemma_view_array(v: JsonValue)
    requires
        v is Array,
    ensures
        v@ == Tree::Array(items_view(v->Array_0@)),
{
    assert(v@->Array_0 =~= items_view(v->Array_0@));
}

/// An object is seen as the object of what its members are seen as.
pub proof fn lemma_view_object(v: JsonValue)
    requires
        v is Object,
    ensures
        v@ == Tree::Object(members_view(v->Object_0@)),
{
    match v {
        JsonValue::Object(members) => {
            let entries = v@->Object_0;
            assert(v@ is Object);
            assert(entries.len() == members@.len());
            assert forall|i: int| 0 <= i < entries.len() implies entries[i] == members_view(
                members@,
            )[i] by {
                assert(entries[i] == (members@[i].0@, members@[i].1@));
            }
            assert(entries =~= members_view(members@));
        },
        _ => {},
    }

}

/// Every object in the tree holds its members in canonical order.
pub open spec fn canonical(t: Tree) -> bool
    decreases t,
{
    match t {
        Tree::Array(items) => forall|i: int| 0 <= i < items.len() ==> canonical(#[trigger] items[i]),
        Tree::Object(members) => sorted(members) && forall|i: int|
            0 <= i < members.len() ==> canonical((#[trigger] members[i]).1),
        _ => true,
    }
}

} // verus!
