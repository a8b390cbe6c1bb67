//! Decoding: from a plain tree with reference markers back to a graph.

use vstd::prelude::*;
use vstd::string::*;
use std::collections::HashMap;
use crate::bridge::lemma_leaf_wf;
use crate::error::CodecError;
use crate::graph::{
    add_node, arena, arena_wf, attach, empty_array, empty_object,
    lemma_attach_wf, link, GNode, Graph, GraphValue, Node, Place, Slot,
};
use crate::keys::{is_marker_key, marker_key, unescape_key, unescaped};
use crate::number::{number_as_i64, number_i64, MAX_REF_ID};
use crate::tree::{items_view, lemma_view_array, lemma_view_object, members_view, JsonValue, Tree};

verus! {

/// What is known of a reference id while a document is read: the node
/// registered for it, and whether its defining occurrence has been met.
#[derive(Clone, Copy, Debug)]
pub struct RefEntry {
    pub node: usize,
    pub owned: bool,
}

/// The state of a decoding: the arena built so far and the reference map.
pub struct Decoding {
    pub nodes: Seq<Node>,
    pub refs: Map<i32, RefEntry>,
}

/// What the walk finds at one node of the document: the graph node that
/// stands for it, the state after it is registered, and, where the node's
/// children are to be read into it, the index of the first of them.
pub struct Opening {
    pub node: usize,
    pub state: Decoding,
    pub fill: Option<usize>,
}

/// The reference id that a marker's value gives: a number held as an integer,
/// above zero and at most `MAX_REF_ID`.
pub open spec fn ref_id(t: Tree) -> Option<i32> {
    match t {
        Tree::Number(x) => match number_i64(x) {
            Some(v) => if 0 < v <= MAX_REF_ID {
                Some(v as i32)
            } else {
                None
            },
            None => None,
        },
        _ => None,
    }
}

/// An object with exactly one member, whose key is the marker key.
pub open spec fn is_marker(t: Tree) -> bool {
    t matches Tree::Object(members) && members.len() == 1 && members[0].0 == marker_key()
}

/// The value of the first member at or after `i` whose key is the marker key.
pub open spec fn marker_value(members: Seq<(Seq<char>, Tree)>, i: int) -> Option<Tree>
    decreases members.len() - i,
{
    if 0 <= i < members.len() {
        if members[i].0 == marker_key() {
            Some(members[i].1)
        } else {
            marker_value(members, i + 1)
        }
    } else {
        None
    }
}

/// The state with one more node at the end of the arena.
pub open spec fn grown(st: Decoding, node: Node) -> Decoding {
    Decoding { nodes: st.nodes.push(node), refs: st.refs }
}

/// The state with `id` registered for `node`.
pub open spec fn registered(st: Decoding, id: i32, node: usize, owned: bool) -> Decoding {
    Decoding { nodes: st.nodes, refs: st.refs.insert(id, RefEntry { node, owned }) }
}

/// Reads one node of the document, without its children.
///
/// A leaf becomes a fresh node. A bare marker object is a reference: it
/// stands for the node registered for its id, and registers a fresh empty
/// object as a placeholder where there is none. An object that holds a
/// marker among other members defines the id: it takes over the placeholder
/// or registers a fresh object, and fails where the id is defined already.
/// An array whose first element is a bare marker object stands for the
/// registered node where it holds nothing else, fails where the id is
/// registered and it holds more, and else defines the id as a fresh array.
/// Any other array or object becomes a fresh node.
pub open spec fn open_node(t: Tree, st: Decoding) -> Result<Opening, CodecError> {
    let fresh = st.nodes.len() as usize;
    match t {
        Tree::Null => Ok(Opening { node: fresh, state: grown(st, Node::Null), fill: None }),
        Tree::Bool(b) => Ok(Opening { node: fresh, state: grown(st, Node::Bool(b)), fill: None }),
        Tree::Number(x) => Ok(
            Opening { node: fresh, state: grown(st, Node::Number(x)), fill: None },
        ),
        Tree::String(s) => Ok(
            Opening { node: fresh, state: grown(st, Node::String(s)), fill: None },
        ),
        Tree::Array(items) => if items.len() > 0 && is_marker(items[0]) {
            match ref_id(items[0]->Object_0[0].1) {
                None => Err(CodecError::InvalidRefId),
                Some(id) => if st.refs.contains_key(id) {
                    if items.len() > 1 {
                        Err(CodecError::DuplicateRef)
                    } else {
                        Ok(Opening { node: st.refs[id].node, state: st, fill: None })
                    }
                } else {
                    Ok(
                        Opening {
                            node: fresh,
                            state: registered(
                                grown(st, Node::Array(Seq::empty())),
                                id,
                                fresh,
                                true,
                            ),
                            fill: Some(1),
                        },
                    )
                },
            }
        } else {
            Ok(Opening { node: fresh, state: grown(st, Node::Array(Seq::empty())), fill: Some(0) })
        },
        Tree::Object(members) => if is_marker(t) {
            match ref_id(members[0].1) {
                None => Err(CodecError::InvalidRefId),
                Some(id) => if st.refs.contains_key(id) {
                    Ok(Opening { node: st.refs[id].node, state: st, fill: None })
                } else {
                    Ok(
                        Opening {
                            node: fresh,
                            state: registered(
                                grown(st, Node::Object(Seq::empty())),
                                id,
                                fresh,
                                false,
                            ),
                            fill: None,
                        },
                    )
                },
            }
        } else {
            match marker_value(members, 0) {
                None => Ok(
                    Opening {
                        node: fresh,
                        state: grown(st, Node::Object(Seq::empty())),
                        fill: Some(0),
                    },
                ),
                Some(v) => match ref_id(v) {
                    None => Err(CodecError::InvalidRefId),
                    Some(id) => if st.refs.contains_key(id) {
                        if st.refs[id].owned {
                            Err(CodecError::DuplicateRef)
                        } else {
                            Ok(
                                Opening {
                                    node: st.refs[id].node,
                                    state: registered(st, id, st.refs[id].node, true),
                                    fill: Some(0),
                                },
                            )
                        }
                    } else {
                        Ok(
                            Opening {
                                node: fresh,
                                state: registered(
                                    grown(st, Node::Object(Seq::empty())),
                                    id,
                                    fresh,
                                    true,
                                ),
                                fill: Some(0),
                            },
                        )
                    },
                },
            }
        },
    }
}

/// Reads the subtree `t` into the graph and links its node in at `slot`.
/// The node is linked in before its children are read, so that a child may
/// refer to it. The first failure in document order ends the reading.
pub open spec fn place(t: Tree, slot: Slot, st: Decoding) -> Result<Decoding, CodecError>
    decreases t, 0nat,
{
    match open_node(t, st) {
        Err(e) => Err(e),
        Ok(o) => {
            let st1 = Decoding { nodes: attach(o.state.nodes, slot, o.node), refs: o.state.refs };
            match o.fill {
                None => Ok(st1),
                Some(start) => match t {
                    Tree::Array(items) => place_items(items, start as int, o.node, st1),
                    Tree::Object(members) => place_members(members, 0, o.node, st1),
                    _ => Ok(st1),
                },
            }
        },
    }
}

/// Reads the elements from index `i` on into the array node `parent`.
pub open spec fn place_items(items: Seq<Tree>, i: int, parent: usize, st: Decoding) -> Result<
    Decoding,
    CodecError,
>
    decreases items, items.len() - i,
{
    if 0 <= i < items.len() {
        match place(items[i], Slot::Elem(parent), st) {
            Err(e) => Err(e),
            Ok(st1) => place_items(items, i + 1, parent, st1),
        }
    } else {
        Ok(st)
    }
}

/// Reads the members from index `i` on into the object node `parent`, each
/// under its decoded key. A member under the marker key is no content.
pub open spec fn place_members(
    members: Seq<(Seq<char>, Tree)>,
    i: int,
    parent: usize,
    st: Decoding,
) -> Result<Decoding, CodecError>
    decreases members, members.len() - i,
{
    if 0 <= i < members.len() {
        if members[i].0 == marker_key() {
            place_members(members, i + 1, parent, st)
        } else {
            match place(members[i].1, Slot::Member(parent, unescaped(members[i].0)), st) {
                Err(e) => Err(e),
                Ok(st1) => place_members(members, i + 1, parent, st1),
            }
        }
    } else {
        Ok(st)
    }
}

/// Every registered id has met its defining occurrence.
pub open spec fn all_owned(refs: Map<i32, RefEntry>) -> bool {
    forall|id: i32| refs.contains_key(id) ==> (#[trigger] refs[id]).owned
}

/// The state in which a decoding starts.
pub open spec fn decoding_start() -> Decoding {
    Decoding { nodes: Seq::empty(), refs: Map::empty() }
}

/// The graph that a document decodes to, or why it does not decode. The
/// root is the first node made. A document in which an id is referred to
/// and nowhere defined has an unknown reference.
pub open spec fn inflate_spec(doc: Tree) -> Result<Graph, CodecError> {
    match place(doc, Slot::Root, decoding_start()) {
        Err(e) => Err(e),
        Ok(st) => if all_owned(st.refs) {
            Ok(Graph { nodes: st.nodes, root: 0 })
        } else {
            Err(CodecError::UnknownRef)
        },
    }
}

/// The reference id that a marker's value gives.
pub fn extract_ref_id(v: &JsonValue) -> (r: Result<i32, CodecError>)
    ensures
        r == match ref_id(v@) {
            Some(id) => Ok::<i32, CodecError>(id),
            None => Err(CodecError::InvalidRefId),
        },
{
    if let JsonValue::Number(n) = v {
        if let Some(id) = number_as_i64(n) {
            if id > 0 && id <= MAX_REF_ID as i64 {
                return Ok(id as i32);
            }
        }
    }
    Err(CodecError::InvalidRefId)
}

/// The marker's value, where `v` is a bare marker object.
fn marker_of<'a>(v: &'a JsonValue) -> (r: Option<&'a JsonValue>)
    ensures
        r is Some <==> is_marker(v@),
        r matches Some(x) ==> x@ == v@->Object_0[0].1,
{
    match v {
        JsonValue::Object(members) => {
            proof {
                lemma_view_object(*v);
            }
            if members.len() == 1 && is_marker_key(members[0].0.as_str()) {
                Some(&members[0].1)
            } else {
                None
            }
        },
        _ => None,
    }
}

/// The value of the first member whose key is the marker key.
fn find_marker<'a>(members: &'a Vec<(String, JsonValue)>) -> (r: Option<&'a JsonValue>)
    ensures
        match marker_value(members_view(members@), 0) {
            Some(t) => r matches Some(x) && x@ == t,
            None => r is None,
        },
{
    let ghost ms = members_view(members@);
    let mut i: usize = 0;
    while i < members.len()
        invariant
            i <= members@.len(),
            ms == members_view(members@),
            marker_value(ms, 0) == marker_value(ms, i as int),
        decreases members@.len() - i,
    {
        if is_marker_key(members[i].0.as_str()) {
            return Some(&members[i].1);
        }
        i += 1;
    }
    None
}

/// The pending work of a decoding: subtrees still to be read, each with the
/// slot to link it in, the next one last.
spec fn run(stack: Seq<(Tree, Slot)>, st: Decoding) -> Result<Decoding, CodecError>
    decreases stack.len(),
{
    if stack.len() == 0 {
        Ok(st)
    } else {
        match place(stack.last().0, stack.last().1, st) {
            Err(e) => Err(e),
            Ok(st1) => run(stack.drop_last(), st1),
        }
    }
}

spec fn rev_items(items: Seq<Tree>, i: int, parent: usize) -> Seq<(Tree, Slot)>
    decreases items.len() - i,
{
    if 0 <= i < items.len() {
        rev_items(items, i + 1, parent).push((items[i], Slot::Elem(parent)))
    } else {
        Seq::empty()
    }
}

spec fn rev_members(members: Seq<(Seq<char>, Tree)>, i: int, parent: usize) -> Seq<(Tree, Slot)>
    decreases members.len() - i,
{
    if 0 <= i < members.len() {
        if members[i].0 == marker_key() {
            rev_members(members, i + 1, parent)
        } else {
            rev_members(members, i + 1, parent).push(
                (members[i].1, Slot::Member(parent, unescaped(members[i].0))),
            )
        }
    } else {
        Seq::empty()
    }
}

proof fn lemma_run_items(
    base: Seq<(Tree, Slot)>,
    items: Seq<Tree>,
    i: int,
    parent: usize,
    st: Decoding,
)
    requires
        0 <= i <= items.len(),
    ensures
        run(base + rev_items(items, i, parent), st) == match place_items(items, i, parent, st) {
            Err(e) => Err(e),
            Ok(s) => run(base, s),
        },
    decreases items.len() - i,
{
    if i < items.len() {
        let tail = rev_items(items, i + 1, parent);
        let full = base + rev_items(items, i, parent);
        assert(full =~= (base + tail).push((items[i], Slot::Elem(parent))));
        assert(full.drop_last() =~= base + tail);
        match place(items[i], Slot::Elem(parent), st) {
            Ok(s1) => {
                lemma_run_items(base, items, i + 1, parent, s1);
            },
            Err(_) => {},
        }
    } else {
        assert(base + rev_items(items, i, parent) =~= base);
    }
}

proof fn lemma_run_members(
    base: Seq<(Tree, Slot)>,
    members: Seq<(Seq<char>, Tree)>,
    i: int,
    parent: usize,
    st: Decoding,
)
    requires
        0 <= i <= members.len(),
    ensures
        run(base + rev_members(members, i, parent), st) == match place_members(
            members,
            i,
            parent,
            st,
        ) {
            Err(e) => Err(e),
            Ok(s) => run(base, s),
        },
    decreases members.len() - i,
{
    if i < members.len() {
        if members[i].0 == marker_key() {
            lemma_run_members(base, members, i + 1, parent, st);
        } else {
            let tail = rev_members(members, i + 1, parent);
            let full = base + rev_members(members, i, parent);
            let slot = Slot::Member(parent, unescaped(members[i].0));
            assert(full =~= (base + tail).push((members[i].1, slot)));
            assert(full.drop_last() =~= base + tail);
            match place(members[i].1, slot, st) {
                Ok(s1) => {
                    lemma_run_members(base, members, i + 1, parent, s1);
                },
                Err(_) => {},
            }
        }
    } else {
        assert(base + rev_members(members, i, parent) =~= base);
    }
}

/// How many nodes a plain tree has.
pub open spec fn size(t: Tree) -> nat
    decreases t, 0nat,
{
    match t {
        Tree::Array(items) => 1 + items_size(items, 0),
        Tree::Object(members) => 1 + members_size(members, 0),
        _ => 1,
    }
}

/// How many nodes the elements from index `i` on have together.
pub open spec fn items_size(items: Seq<Tree>, i: int) -> nat
    decreases items, items.len() - i,
{
    if 0 <= i < items.len() {
        size(items[i]) + items_size(items, i + 1)
    } else {
        0
    }
}

/// How many nodes the members from index `i` on have together.
pub open spec fn members_size(members: Seq<(Seq<char>, Tree)>, i: int) -> nat
    decreases members, members.len() - i,
{
    if 0 <= i < members.len() {
        size(members[i].1) + members_size(members, i + 1)
    } else {
        0
    }
}

spec fn weight(stack: Seq<(Tree, Slot)>) -> nat
    decreases stack.len(),
{
    if stack.len() == 0 {
        0
    } else {
        weight(stack.drop_last()) + size(stack.last().0)
    }
}

proof fn lemma_items_size_mono(items: Seq<Tree>, i: int)
    requires
        0 <= i <= items.len(),
    ensures
        items_size(items, i) <= items_size(items, 0),
    decreases i,
{
    if i > 0 {
        lemma_items_size_mono(items, i - 1);
    }
}

proof fn lemma_weight_push(stack: Seq<(Tree, Slot)>, e: (Tree, Slot))
    ensures
        weight(stack.push(e)) == weight(stack) + size(e.0),
{
    assert(stack.push(e).drop_last() =~= stack);
}

proof fn lemma_weight_items(base: Seq<(Tree, Slot)>, items: Seq<Tree>, i: int, parent: usize)
    requires
        0 <= i <= items.len(),
    ensures
        weight(base + rev_items(items, i, parent)) == weight(base) + items_size(items, i),
    decreases items.len() - i,
{
    if i < items.len() {
        let tail = rev_items(items, i + 1, parent);
        assert(base + rev_items(items, i, parent) =~= (base + tail).push(
            (items[i], Slot::Elem(parent)),
        ));
        lemma_weight_push(base + tail, (items[i], Slot::Elem(parent)));
        lemma_weight_items(base, items, i + 1, parent);
    } else {
        assert(base + rev_items(items, i, parent) =~= base);
    }
}

proof fn lemma_weight_members(
    base: Seq<(Tree, Slot)>,
    members: Seq<(Seq<char>, Tree)>,
    i: int,
    parent: usize,
)
    requires
        0 <= i <= members.len(),
    ensures
        weight(base + rev_members(members, i, parent)) <= weight(base) + members_size(
            members,
            i,
        ),
    decreases members.len() - i,
{
    if i < members.len() {
        lemma_weight_members(base, members, i + 1, parent);
        if members[i].0 != marker_key() {
            let tail = rev_members(members, i + 1, parent);
            let e = (members[i].1, Slot::Member(parent, unescaped(members[i].0)));
            assert(base + rev_members(members, i, parent) =~= (base + tail).push(e));
            lemma_weight_push(base + tail, e);
        }
    } else {
        assert(base + rev_members(members, i, parent) =~= base);
    }
}

/// The pending work as a mathematical value.
spec fn stack_view(stack: Seq<(&JsonValue, Place)>) -> Seq<(Tree, Slot)> {
    Seq::new(stack.len(), |i: int| (stack[i].0@, stack[i].1@))
}

/// Every registered id names a node of the arena, and every id that is
/// registered without a definition is on the list of placeholders.
spec fn accounted(nodes: Seq<Node>, refs: Map<i32, RefEntry>, pending: Seq<i32>) -> bool {
    &&& forall|id: i32| refs.contains_key(id) ==> (#[trigger] refs[id]).node < nodes.len()
    &&& forall|id: i32|
        refs.contains_key(id) && !(#[trigger] refs[id]).owned ==> pending.contains(id)
}

proof fn lemma_accounted_attach(
    nodes: Seq<Node>,
    refs: Map<i32, RefEntry>,
    pending: Seq<i32>,
    slot: Slot,
    c: usize,
)
    requires
        accounted(nodes, refs, pending),
    ensures
        accounted(attach(nodes, slot, c), refs, pending),
{
}

/// Reads one node of the document, without its children.
fn open_value(
    item: &JsonValue,
    nodes: &mut Vec<GNode>,
    refs: &mut HashMap<i32, RefEntry>,
    pending: &mut Vec<i32>,
) -> (r: Result<(usize, Option<usize>), CodecError>)
    requires
        arena_wf(arena(old(nodes)@)),
        accounted(arena(old(nodes)@), old(refs)@, old(pending)@),
    ensures
        match open_node(item@, Decoding { nodes: arena(old(nodes)@), refs: old(refs)@ }) {
            Err(e) => r == Err::<(usize, Option<usize>), CodecError>(e),
            Ok(o) => r == Ok::<(usize, Option<usize>), CodecError>((o.node, o.fill)) && arena(
                final(nodes)@,
            ) == o.state.nodes && final(refs)@ == o.state.refs && o.node < final(nodes)@.len()
                && arena_wf(arena(final(nodes)@)) && accounted(
                arena(final(nodes)@),
                final(refs)@,
                final(pending)@,
            ),
        },
{
    broadcast use vstd::std_specs::hash::group_hash_axioms;

    let ghost st = Decoding { nodes: arena(nodes@), refs: refs@ };
    let ghost before = pending@;
    match item {
        JsonValue::Null => {
            let n = add_node(nodes, GNode::Null);
            proof {
                lemma_leaf_wf(st.nodes, Node::Null);
            }
            Ok((n, None))
        },
        JsonValue::Bool(b) => {
            let n = add_node(nodes, GNode::Bool(*b));
            proof {
                lemma_leaf_wf(st.nodes, Node::Bool(*b));
            }
            Ok((n, None))
        },
        JsonValue::Number(x) => {
            let n = add_node(nodes, GNode::Number(x.clone()));
            proof {
                lemma_leaf_wf(st.nodes, Node::Number(*x));
            }
            Ok((n, None))
        },
        JsonValue::String(s) => {
            let n = add_node(nodes, GNode::String(s.clone()));
            proof {
                lemma_leaf_wf(st.nodes, Node::String(s@));
            }
            Ok((n, None))
        },
        JsonValue::Array(items) => {
            proof {
                lemma_view_array(*item);
                if st.nodes.len() < usize::MAX {
                    lemma_leaf_wf(st.nodes, Node::Array(Seq::empty()));
                }
            }
            let marker = if items.len() > 0 {
                marker_of(&items[0])
            } else {
                None
            };
            match marker {
                Some(v) => {
                    match extract_ref_id(v) {
                        Err(e) => Err(e),
                        Ok(id) => {
                            match refs.get(&id) {
                                Some(entry) => {
                                    if items.len() > 1 {
                                        Err(CodecError::DuplicateRef)
                                    } else {
                                        Ok((entry.node, None))
                                    }
                                },
                                None => {
                                    let n = add_node(nodes, empty_array());
                                    refs.insert(id, RefEntry { node: n, owned: true });
                                    Ok((n, Some(1)))
                                },
                            }
                        },
                    }
                },
                None => {
                    let n = add_node(nodes, empty_array());
                    Ok((n, Some(0)))
                },
            }
        },
        JsonValue::Object(members) => {
            proof {
                lemma_view_object(*item);
                if st.nodes.len() < usize::MAX {
                    lemma_leaf_wf(st.nodes, Node::Object(Seq::empty()));
                }
            }
            match marker_of(item) {
                Some(v) => {
                    match extract_ref_id(v) {
                        Err(e) => Err(e),
                        Ok(id) => {
                            match refs.get(&id) {
                                Some(entry) => Ok((entry.node, None)),
                                None => {
                                    let n = add_node(nodes, empty_object());
                                    refs.insert(id, RefEntry { node: n, owned: false });
                                    pending.push(id);
                                    proof {
                                        assert(pending@.last() == id);
                                        assert forall|k: i32|
                                            refs@.contains_key(k) && !(
                                            #[trigger] refs@[k]).owned implies pending@.contains(
                                            k,
                                        ) by {
                                            if k != id {
                                                assert(before.contains(k));
                                                let j = choose|j: int|
                                                    0 <= j < before.len() && before[j] == k;
                                                assert(pending@[j] == k);
                                            }
                                        }
                                    }
                                    Ok((n, None))
                                },
                            }
                        },
                    }
                },
                None => {
                    match find_marker(members) {
                        None => {
                            let n = add_node(nodes, empty_object());
                            Ok((n, Some(0)))
                        },
                        Some(v) => {
                            match extract_ref_id(v) {
                                Err(e) => Err(e),
                                Ok(id) => {
                                    let found = match refs.get(&id) {
                                        Some(entry) => Some(*entry),
                                        None => None,
                                    };
                                    match found {
                                        Some(entry) => {
                                            if entry.owned {
                                                Err(CodecError::DuplicateRef)
                                            } else {
                                                refs.insert(
                                                    id,
                                                    RefEntry { node: entry.node, owned: true },
                                                );
                                                Ok((entry.node, Some(0)))
                                            }
                                        },
                                        None => {
                                            let n = add_node(nodes, empty_object());
                                            refs.insert(id, RefEntry { node: n, owned: true });
                                            Ok((n, Some(0)))
                                        },
                                    }
                                },
                            }
                        },
                    }
                },
            }
        },
    }
}

/// Puts the elements from index `start` on onto the work list, the first of them last.
fn push_items<'a>(
    stack: &mut Vec<(&'a JsonValue, Place)>,
    items: &'a Vec<JsonValue>,
    start: usize,
    node: usize,
)
    requires
        start <= items@.len(),
    ensures
        stack_view(final(stack)@) == stack_view(old(stack)@) + rev_items(
            items_view(items@),
            start as int,
            node,
        ),
{
    let ghost rest = stack_view(stack@);
    let ghost kids = items_view(items@);
    proof {
        assert(rest + rev_items(kids, kids.len() as int, node) =~= rest);
    }
    let mut i: usize = items.len();
    while i > start
        invariant
            start <= i <= items@.len(),
            kids == items_view(items@),
            stack_view(stack@) == rest + rev_items(kids, i as int, node),
        decreases i,
    {
        i -= 1;
        let ghost prev = stack_view(stack@);
        stack.push((&items[i], Place::Elem(node)));
        proof {
            assert(stack_view(stack@) =~= prev.push((kids[i as int], Slot::Elem(node))));
            assert(rest + rev_items(kids, i as int, node) =~= (rest + rev_items(
                kids,
                i + 1,
                node,
            )).push((kids[i as int], Slot::Elem(node))));
        }
    }
}

/// Puts the members onto the work list, the first of them last, each with
/// its decoded key. A member under the marker key is left out.
fn push_members<'a>(
    stack: &mut Vec<(&'a JsonValue, Place)>,
    members: &'a Vec<(String, JsonValue)>,
    node: usize,
)
    ensures
        stack_view(final(stack)@) == stack_view(old(stack)@) + rev_members(
            members_view(members@),
            0,
            node,
        ),
{
    let ghost rest = stack_view(stack@);
    let ghost ms = members_view(members@);
    proof {
        assert(rest + rev_members(ms, ms.len() as int, node) =~= rest);
    }
    let mut i: usize = members.len();
    while i > 0
        invariant
            i <= members@.len(),
            ms == members_view(members@),
            stack_view(stack@) == rest + rev_members(ms, i as int, node),
        decreases i,
    {
        i -= 1;
        let ghost prev = stack_view(stack@);
        if !is_marker_key(members[i].0.as_str()) {
            let key = unescape_key(members[i].0.as_str());
            stack.push((&members[i].1, Place::Member(node, key)));
            proof {
                let e = (ms[i as int].1, Slot::Member(node, unescaped(ms[i as int].0)));
                assert(stack_view(stack@) =~= prev.push(e));
                assert(rest + rev_members(ms, i as int, node) =~= (rest + rev_members(
                    ms,
                    i + 1,
                    node,
                )).push(e));
            }
        }
    }
}

/// Whether every id on the list of placeholders has been defined.
fn placeholders_defined(refs: &HashMap<i32, RefEntry>, pending: &Vec<i32>) -> (r: bool)
    requires
        forall|id: i32|
            refs@.contains_key(id) && !(#[trigger] refs@[id]).owned ==> pending@.contains(id),
    ensures
        r == all_owned(refs@),
{
    broadcast use vstd::std_specs::hash::group_hash_axioms;

    let mut i: usize = 0;
    while i < pending.len()
        invariant
            i <= pending@.len(),
            forall|j: int|
                0 <= j < i && refs@.contains_key(#[trigger] pending@[j]) ==> refs@[pending@[j]].owned,
        decreases pending@.len() - i,
    {
        match refs.get(&pending[i]) {
            Some(entry) => {
                if !entry.owned {
                    return false;
                }
            },
            None => {},
        }
        i += 1;
    }
    proof {
        assert forall|id: i32| refs@.contains_key(id) implies (#[trigger] refs@[id]).owned by {
            if !refs@[id].owned {
                let j = choose|j: int| 0 <= j < pending@.len() && pending@[j] == id;
                assert(refs@.contains_key(pending@[j]));
            }
        }
    }
    true
}

/// The children that remain to be read after a node was opened, as they go
/// onto the work list.
spec fn pending_kids(t: Tree, fill: Option<usize>, node: usize) -> Seq<(Tree, Slot)> {
    match fill {
        None => Seq::empty(),
        Some(start) => match t {
            Tree::Array(items) => rev_items(items, start as int, node),
            Tree::Object(members) => rev_members(members, 0, node),
            _ => Seq::empty(),
        },
    }
}

/// One turn of the work list does what `place` says of the subtree on top,
/// and leaves less work.
proof fn lemma_step(rest: Seq<(Tree, Slot)>, t: Tree, s: Slot, st: Decoding)
    ensures
        match open_node(t, st) {
            Err(e) => run(rest.push((t, s)), st) == Err::<Decoding, CodecError>(e),
            Ok(o) => {
                let st1 = Decoding {
                    nodes: attach(o.state.nodes, s, o.node),
                    refs: o.state.refs,
                };
                let next = rest + pending_kids(t, o.fill, o.node);
                run(rest.push((t, s)), st) == run(next, st1) && weight(next) < weight(
                    rest.push((t, s)),
                )
            },
        },
{
    let full = rest.push((t, s));
    assert(full.drop_last() =~= rest);
    lemma_weight_push(rest, (t, s));
    match open_node(t, st) {
        Err(e) => {},
        Ok(o) => {
            let st1 = Decoding { nodes: attach(o.state.nodes, s, o.node), refs: o.state.refs };
            match o.fill {
                None => {
                    assert(rest + pending_kids(t, o.fill, o.node) =~= rest);
                },
                Some(start) => match t {
                    Tree::Array(items) => {
                        lemma_run_items(rest, items, start as int, o.node, st1);
                        lemma_weight_items(rest, items, start as int, o.node);
                        lemma_items_size_mono(items, start as int);
                    },
                    Tree::Object(members) => {
                        lemma_run_members(rest, members, 0, o.node, st1);
                        lemma_weight_members(rest, members, 0, o.node);
                    },
                    _ => {
                        assert(rest + pending_kids(t, o.fill, o.node) =~= rest);
                    },
                },
            }
        },
    }
}

/// Puts the children that remain to be read onto the work list.
fn push_children<'a>(
    stack: &mut Vec<(&'a JsonValue, Place)>,
    item: &'a JsonValue,
    fill: Option<usize>,
    node: usize,
)
    requires
        fill matches Some(start) ==> (item@ matches Tree::Array(items) ==> start <= items.len()),
    ensures
        stack_view(final(stack)@) == stack_view(old(stack)@) + pending_kids(item@, fill, node),
{
    let ghost rest = stack_view(stack@);
    match fill {
        None => {
            proof {
                assert(rest + pending_kids(item@, fill, node) =~= rest);
            }
        },
        Some(start) => {
            match item {
                JsonValue::Array(items) => {
                    proof {
                        lemma_view_array(*item);
                    }
                    push_items(stack, items, start, node);
                },
                JsonValue::Object(members) => {
                    proof {
                        lemma_view_object(*item);
                    }
                    push_members(stack, members, node);
                },
                _ => {
                    proof {
                        assert(rest + pending_kids(item@, fill, node) =~= rest);
                    }
                },
            }
        },
    }
}

/// Decodes a document: rebuilds the graph that the plain tree stands for,
/// with one node for each reference id however often it is referred to.
///
/// The document is read with a work list of its own, in document order, so
/// its depth is bounded by memory alone.
pub fn inflate(value: &JsonValue) -> (r: Result<GraphValue, CodecError>)
    ensures
        match inflate_spec(value@) {
            Ok(g) => r matches Ok(v) && v@ == g && v@.wf(),
            Err(e) => r == Err::<GraphValue, CodecError>(e),
        },
{
    let mut nodes: Vec<GNode> = Vec::new();
    let mut refs: HashMap<i32, RefEntry> = HashMap::new();
    let mut pending: Vec<i32> = Vec::new();
    let mut stack: Vec<(&JsonValue, Place)> = Vec::new();
    stack.push((value, Place::Root));
    let ghost goal = place(value@, Slot::Root, decoding_start());
    proof {
        let s = stack_view(stack@);
        assert(s.drop_last() =~= Seq::empty());
        assert(s.last() == (value@, Slot::Root));
        assert(arena(nodes@) =~= Seq::empty());
        assert(refs@ =~= Map::empty());
        assert(run(s, decoding_start()) == goal) by {
            if goal is Ok {
                assert(run(s.drop_last(), goal->Ok_0) == Ok::<Decoding, CodecError>(goal->Ok_0));
            }
        }
    }
    while stack.len() > 0
        invariant
            arena_wf(arena(nodes@)),
            accounted(arena(nodes@), refs@, pending@),
            run(stack_view(stack@), Decoding { nodes: arena(nodes@), refs: refs@ }) == goal,
            goal == place(value@, Slot::Root, decoding_start()),
            nodes@.len() == 0 ==> stack@.len() > 0,
        decreases weight(stack_view(stack@)),
    {
        let ghost full = stack_view(stack@);
        let ghost st = Decoding { nodes: arena(nodes@), refs: refs@ };
        let (item, slot) = stack.pop().unwrap();
        let ghost rest = stack_view(stack@);
        proof {
            assert(full =~= rest.push((item@, slot@)));
            lemma_step(rest, item@, slot@, st);
        }
        match open_value(item, &mut nodes, &mut refs, &mut pending) {
            Err(e) => {
                return Err(e);
            },
            Ok((node, fill)) => {
                proof {
                    lemma_attach_wf(arena(nodes@), slot@, node);
                    lemma_accounted_attach(arena(nodes@), refs@, pending@, slot@, node);
                }
                link(&mut nodes, slot, node);
                push_children(&mut stack, item, fill, node);
            },
        }
    }
    let owned = placeholders_defined(&refs, &pending);
    if owned {
        Ok(GraphValue::from_parts(nodes, 0))
    } else {
        Err(CodecError::UnknownRef)
    }
}

} // verus!
