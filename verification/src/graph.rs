//! Value graphs. The nodes of a graph live in one arena and refer to each
//! other by index, so a node may have several parents and may lie on a cycle.
//! Two handles denote the same node exactly when they are the same index.

use vstd::prelude::*;
use vstd::string::*;
use crate::keys::{key_equal, key_less, lemma_put_sorted, lemma_rank, put, rank, sorted};
use crate::tree::Tree;

verus! {

/// A node as a mathematical value. Children are handles into the arena.
pub enum Node {
    Null,
    Bool(bool),
    Number(serde_json::Number),
    String(Seq<char>),
    Array(Seq<usize>),
    /// The members in canonical order.
    Object(Seq<(Seq<char>, usize)>),
}

/// Where a node is linked in: nowhere (it is the root), at the end of an
/// array node, or under a key of an object node.
pub enum Slot {
    Root,
    Elem(usize),
    Member(usize, Seq<char>),
}

/// A graph as a mathematical value: the arena and the handle of the root.
pub struct Graph {
    pub nodes: Seq<Node>,
    pub root: usize,
}

/// How many children a node has.
pub open spec fn child_count(node: Node) -> int {
    match node {
        Node::Array(kids) => kids.len() as int,
        Node::Object(members) => members.len() as int,
        _ => 0,
    }
}

/// The `i`-th child of a node.
pub open spec fn child(node: Node, i: int) -> usize {
    match node {
        Node::Array(kids) => kids[i],
        Node::Object(members) => members[i].1,
        _ => 0,
    }
}

/// Every handle held in the arena is a node of it, every object holds its
/// members in canonical order, and the arena's length is one that a handle can hold.
pub open spec fn arena_wf(nodes: Seq<Node>) -> bool {
    &&& nodes.len() <= usize::MAX
    &&& forall|n: int, i: int|
        0 <= n < nodes.len() && 0 <= i < child_count(nodes[n]) ==> (#[trigger] child(
            nodes[n],
            i,
        )) < nodes.len()
    &&& forall|n: int|
        0 <= n < nodes.len() ==> (#[trigger] nodes[n] matches Node::Object(members) ==> sorted(
            members,
        ))
}

/// Every child lies after its parent in the arena. Such an arena has no
/// cycle, and each node of it has a plain tree.
pub open spec fn ordered(nodes: Seq<Node>) -> bool {
    forall|n: int, i: int|
        0 <= n < nodes.len() && 0 <= i < child_count(nodes[n]) ==> n < (#[trigger] child(
            nodes[n],
            i,
        )) < nodes.len()
}

impl Graph {
    /// The root is a node, and the arena is well formed.
    pub open spec fn wf(self) -> bool {
        self.root < self.nodes.len() && arena_wf(self.nodes)
    }
}

/// The arena after `child` is linked in at `slot`: appended to the array, or
/// set under the key in the object. A slot that names no such node links nothing.
pub open spec fn attach(nodes: Seq<Node>, slot: Slot, child: usize) -> Seq<Node> {
    match slot {
        Slot::Root => nodes,
        Slot::Elem(p) => if p < nodes.len() && nodes[p as int] is Array {
            nodes.update(p as int, Node::Array(nodes[p as int]->Array_0.push(child)))
        } else {
            nodes
        },
        Slot::Member(p, key) => if p < nodes.len() && nodes[p as int] is Object {
            nodes.update(p as int, Node::Object(put(nodes[p as int]->Object_0, key, child)))
        } else {
            nodes
        },
    }
}

/// The plain tree `t` is what one sees from node `n`: the same kind of value
/// at each place, children in the same order, members under the same keys.
/// A node on a cycle is seen as no plain tree.
pub open spec fn represents(nodes: Seq<Node>, n: usize, t: Tree) -> bool
    decreases t,
{
    n < nodes.len() && match t {
        Tree::Null => nodes[n as int] is Null,
        Tree::Bool(b) => nodes[n as int] == Node::Bool(b),
        Tree::Number(x) => nodes[n as int] == Node::Number(x),
        Tree::String(s) => nodes[n as int] == Node::String(s),
        Tree::Array(items) => nodes[n as int] matches Node::Array(kids) && kids.len()
            == items.len() && forall|i: int|
            0 <= i < items.len() ==> represents(nodes, kids[i], #[trigger] items[i]),
        Tree::Object(entries) => nodes[n as int] matches Node::Object(members) && members.len()
            == entries.len() && forall|i: int|
            0 <= i < entries.len() ==> members[i].0 == (#[trigger] entries[i]).0 && represents(
                nodes,
                members[i].1,
                entries[i].1,
            ),
    }
}

/// A node is seen as at most one plain tree.
pub proof fn lemma_represents_unique(nodes: Seq<Node>, n: usize, t1: Tree, t2: Tree)
    requires
        represents(nodes, n, t1),
        represents(nodes, n, t2),
    ensures
        t1 == t2,
    decreases t1,
{
    match t1 {
        Tree::Array(items) => {
            let kids = nodes[n as int]->Array_0;
            let items2 = t2->Array_0;
            assert forall|i: int| 0 <= i < items.len() implies items[i] == items2[i] by {
                lemma_represents_unique(nodes, kids[i], items[i], items2[i]);
            }
            assert(items =~= items2);
        },
        Tree::Object(entries) => {
            let members = nodes[n as int]->Object_0;
            let entries2 = t2->Object_0;
            assert forall|i: int| 0 <= i < entries.len() implies entries[i] == entries2[i] by {
                lemma_represents_unique(nodes, members[i].1, entries[i].1, entries2[i].1);
            }
            assert(entries =~= entries2);
        },
        _ => {},
    }
}

/// The plain tree seen from node `n` of an ordered arena.
pub open spec fn unfold(nodes: Seq<Node>, n: usize) -> Tree
    decreases nodes.len() - n,
{
    if n >= nodes.len() {
        Tree::Null
    } else {
        match nodes[n as int] {
            Node::Null => Tree::Null,
            Node::Bool(b) => Tree::Bool(b),
            Node::Number(x) => Tree::Number(x),
            Node::String(s) => Tree::String(s),
            Node::Array(kids) => Tree::Array(
                Seq::new(
                    kids.len(),
                    |i: int|
                        if 0 <= i < kids.len() && n < kids[i] < nodes.len() {
                            unfold(nodes, kids[i])
                        } else {
                            Tree::Null
                        },
                ),
            ),
            Node::Object(members) => Tree::Object(
                Seq::new(
                    members.len(),
                    |i: int|
                        if 0 <= i < members.len() && n < members[i].1 < nodes.len() {
                            (members[i].0, unfold(nodes, members[i].1))
                        } else {
                            (members[i].0, Tree::Null)
                        },
                ),
            ),
        }
    }
}

/// In an ordered arena every node is seen as the plain tree that `unfold` gives.
pub proof fn lemma_unfold_represents(nodes: Seq<Node>, n: usize)
    requires
        ordered(nodes),
        n < nodes.len(),
    ensures
        represents(nodes, n, unfold(nodes, n)),
    decreases nodes.len() - n,
{
    match nodes[n as int] {
        Node::Array(kids) => {
            let items = unfold(nodes, n)->Array_0;
            assert forall|i: int| 0 <= i < items.len() implies represents(
                nodes,
                kids[i],
                #[trigger] items[i],
            ) by {
                assert(kids[i] == child(nodes[n as int], i));
                lemma_unfold_represents(nodes, kids[i]);
            }
        },
        Node::Object(members) => {
            let entries = unfold(nodes, n)->Object_0;
            assert forall|i: int| 0 <= i < entries.len() implies members[i].0 == (
            #[trigger] entries[i]).0 && represents(nodes, members[i].1, entries[i].1) by {
                assert(members[i].1 == child(nodes[n as int], i));
                lemma_unfold_represents(nodes, members[i].1);
            }
        },
        _ => {},
    }
}

/// An array node: the handles of its elements, in order.
#[derive(Clone, Debug)]
pub struct GArray(pub Vec<usize>);

/// An object node: its members, each a key and the handle of its value, in
/// canonical order.
#[derive(Clone, Debug)]
pub struct GObject(pub Vec<(String, usize)>);

/// A node of a graph.
#[derive(Clone, Debug)]
pub enum GNode {
    Null,
    Bool(bool),
    Number(serde_json::Number),
    String(String),
    Array(GArray),
    Object(GObject),
}

/// A value in a graph: the arena that holds the graph's nodes, and the
/// handle of the node that the value is. The functions of this library
/// make well-formed values only, and keep them so.
#[derive(Clone, Debug)]
pub struct GraphValue {
    nodes: Vec<GNode>,
    root: usize,
}

/// A place in an arena under construction.
pub enum Place {
    Root,
    Elem(usize),
    Member(usize, String),
}

impl View for Place {
    type V = Slot;

    open spec fn view(&self) -> Slot {
        match self {
            Place::Root => Slot::Root,
            Place::Elem(p) => Slot::Elem(*p),
            Place::Member(p, key) => Slot::Member(*p, key@),
        }
    }
}

impl View for GObject {
    type V = Seq<(Seq<char>, usize)>;

    open spec fn view(&self) -> Seq<(Seq<char>, usize)> {
        self.0@.map_values(|e: (String, usize)| (e.0@, e.1))
    }
}

impl View for GNode {
    type V = Node;

    open spec fn view(&self) -> Node {
        match self {
            GNode::Null => Node::Null,
            GNode::Bool(b) => Node::Bool(*b),
            GNode::Number(x) => Node::Number(*x),
            GNode::String(s) => Node::String(s@),
            GNode::Array(a) => Node::Array(a.0@),
            GNode::Object(o) => Node::Object(o@),
        }
    }
}

/// The arena as a mathematical value.
pub open spec fn arena(nodes: Seq<GNode>) -> Seq<Node> {
    nodes.map_values(|n: GNode| n@)
}

impl View for GraphValue {
    type V = Graph;

    closed spec fn view(&self) -> Graph {
        Graph { nodes: arena(self.nodes@), root: self.root }
    }
}

/// A value that is one fresh node without children.
fn single(node: GNode) -> (r: GraphValue)
    requires
        child_count(node@) == 0,
    ensures
        r@ == (Graph { nodes: seq![node@], root: 0 }),
        r@.wf(),
{
    let mut nodes: Vec<GNode> = Vec::new();
    nodes.push(node);
    proof {
        assert(arena(nodes@) =~= seq![node@]);
        assert(node@ matches Node::Object(members) ==> sorted(members));
    }
    GraphValue { nodes, root: 0 }
}

/// A fresh null.
pub fn new_null() -> (r: GraphValue)
    ensures
        r@ == (Graph { nodes: seq![Node::Null], root: 0 }),
        r@.wf(),
{
    single(GNode::Null)
}

/// A fresh boolean.
pub fn new_bool(b: bool) -> (r: GraphValue)
    ensures
        r@ == (Graph { nodes: seq![Node::Bool(b)], root: 0 }),
        r@.wf(),
{
    single(GNode::Bool(b))
}

/// A fresh number.
pub fn new_number(n: serde_json::Number) -> (r: GraphValue)
    ensures
        r@ == (Graph { nodes: seq![Node::Number(n)], root: 0 }),
        r@.wf(),
{
    single(GNode::Number(n))
}

/// A fresh string.
pub fn new_string(s: String) -> (r: GraphValue)
    ensures
        r@ == (Graph { nodes: seq![Node::String(s@)], root: 0 }),
        r@.wf(),
{
    single(GNode::String(s))
}

/// A fresh array without elements.
pub fn new_array() -> (r: GraphValue)
    ensures
        r@ == (Graph { nodes: seq![Node::Array(Seq::empty())], root: 0 }),
        r@.wf(),
{
    single(empty_array())
}

/// A fresh object without members.
pub fn new_object() -> (r: GraphValue)
    ensures
        r@ == (Graph { nodes: seq![Node::Object(Seq::empty())], root: 0 }),
        r@.wf(),
{
    single(empty_object())
}

impl GraphValue {
    /// The value whose graph is the arena and whose node is `root`.
    pub(crate) fn from_parts(nodes: Vec<GNode>, root: usize) -> (r: GraphValue)
        requires
            root < nodes@.len(),
            arena_wf(arena(nodes@)),
        ensures
            r@ == (Graph { nodes: arena(nodes@), root }),
            r@.wf(),
    {
        GraphValue { nodes, root }
    }

    /// The arena.
    pub(crate) fn arena_nodes(&self) -> (r: &Vec<GNode>)
        ensures
            arena(r@) == self@.nodes,
    {
        &self.nodes
    }

    /// The handle of the node that the value is.
    pub fn root(&self) -> (r: usize)
        ensures
            r == self@.root,
    {
        self.root
    }

    /// How many nodes the graph has.
    pub fn len(&self) -> (r: usize)
        ensures
            r == self@.nodes.len(),
    {
        self.nodes.len()
    }

    /// The node behind a handle, if it is a handle of this graph.
    pub fn node(&self, handle: usize) -> (r: Option<&GNode>)
        ensures
            match r {
                Some(node) => handle < self@.nodes.len() && node@ == self@.nodes[handle as int],
                None => handle >= self@.nodes.len(),
            },
    {
        if handle < self.nodes.len() {
            Some(&self.nodes[handle])
        } else {
            None
        }
    }

    /// Makes the node behind `handle` the node that the value is. Returns
    /// whether it did: it does not where the graph has no such node.
    pub fn set_root(&mut self, handle: usize) -> (r: bool)
        requires
            old(self)@.wf(),
        ensures
            final(self)@.wf(),
            r == (handle < old(self)@.nodes.len()),
            final(self)@ == (Graph {
                nodes: old(self)@.nodes,
                root: if r {
                    handle
                } else {
                    old(self)@.root
                },
            }),
    {
        if handle < self.nodes.len() {
            self.root = handle;
            true
        } else {
            false
        }
    }

    /// Adds a fresh node without children to the graph and returns its handle.
    fn add_leaf(&mut self, node: GNode) -> (r: usize)
        requires
            old(self)@.wf(),
            child_count(node@) == 0,
        ensures
            final(self)@.wf(),
            r == old(self)@.nodes.len(),
            final(self)@ == (Graph {
                nodes: old(self)@.nodes.push(node@),
                root: old(self)@.root,
            }),
    {
        let ghost before = arena(self.nodes@);
        proof {
            if before.len() < usize::MAX {
                let out = before.push(node@);
                assert forall|n: int, i: int|
                    0 <= n < out.len() && 0 <= i < child_count(out[n]) implies (#[trigger] child(
                    out[n],
                    i,
                )) < out.len() by {
                    assert(out[n] == before[n]);
                    assert(child(before[n], i) < before.len());
                }
                assert forall|n: int| 0 <= n < out.len() implies (
                #[trigger] out[n] matches Node::Object(members) ==> sorted(members)) by {
                    if n < before.len() {
                        assert(out[n] == before[n]);
                    }
                }
                assert(arena_wf(out));
            }
        }
        add_node(&mut self.nodes, node)
    }

    /// Adds a fresh null to the graph and returns its handle.
    pub fn add_null(&mut self) -> (r: usize)
        requires
            old(self)@.wf(),
        ensures
            final(self)@.wf(),
            r == old(self)@.nodes.len(),
            final(self)@ == (Graph {
                nodes: old(self)@.nodes.push(Node::Null),
                root: old(self)@.root,
            }),
    {
        self.add_leaf(GNode::Null)
    }

    /// Adds a fresh boolean to the graph and returns its handle.
    pub fn add_bool(&mut self, b: bool) -> (r: usize)
        requires
            old(self)@.wf(),
        ensures
            final(self)@.wf(),
            r == old(self)@.nodes.len(),
            final(self)@ == (Graph {
                nodes: old(self)@.nodes.push(Node::Bool(b)),
                root: old(self)@.root,
            }),
    {
        self.add_leaf(GNode::Bool(b))
    }

    /// Adds a fresh number to the graph and returns its handle.
    pub fn add_number(&mut self, n: serde_json::Number) -> (r: usize)
        requires
            old(self)@.wf(),
        ensures
            final(self)@.wf(),
            r == old(self)@.nodes.len(),
            final(self)@ == (Graph {
                nodes: old(self)@.nodes.push(Node::Number(n)),
                root: old(self)@.root,
            }),
    {
        self.add_leaf(GNode::Number(n))
    }

    /// Adds a fresh string to the graph and returns its handle.
    pub fn add_string(&mut self, s: String) -> (r: usize)
        requires
            old(self)@.wf(),
        ensures
            final(self)@.wf(),
            r == old(self)@.nodes.len(),
            final(self)@ == (Graph {
                nodes: old(self)@.nodes.push(Node::String(s@)),
                root: old(self)@.root,
            }),
    {
        self.add_leaf(GNode::String(s))
    }

    /// Adds a fresh array without elements to the graph and returns its handle.
    pub fn add_array(&mut self) -> (r: usize)
        requires
            old(self)@.wf(),
        ensures
            final(self)@.wf(),
            r == old(self)@.nodes.len(),
            final(self)@ == (Graph {
                nodes: old(self)@.nodes.push(Node::Array(Seq::empty())),
                root: old(self)@.root,
            }),
    {
        self.add_leaf(empty_array())
    }

    /// Adds a fresh object without members to the graph and returns its handle.
    pub fn add_object(&mut self) -> (r: usize)
        requires
            old(self)@.wf(),
        ensures
            final(self)@.wf(),
            r == old(self)@.nodes.len(),
            final(self)@ == (Graph {
                nodes: old(self)@.nodes.push(Node::Object(Seq::empty())),
                root: old(self)@.root,
            }),
    {
        self.add_leaf(empty_object())
    }

    /// Appends the node behind `child` to the array behind `array`. Returns
    /// whether it did: it does not where either is no node of the graph or
    /// `array` is no array.
    pub fn push(&mut self, array: usize, child: usize) -> (r: bool)
        requires
            old(self)@.wf(),
        ensures
            final(self)@.wf(),
            r == (array < old(self)@.nodes.len() && child < old(self)@.nodes.len() && old(
                self,
            )@.nodes[array as int] is Array),
            final(self)@ == (Graph {
                nodes: if r {
                    attach(old(self)@.nodes, Slot::Elem(array), child)
                } else {
                    old(self)@.nodes
                },
                root: old(self)@.root,
            }),
    {
        if array >= self.nodes.len() || child >= self.nodes.len() {
            return false;
        }
        let is_array = match &self.nodes[array] {
            GNode::Array(_) => true,
            _ => false,
        };
        if !is_array {
            return false;
        }
        proof {
            lemma_attach_wf(arena(self.nodes@), Slot::Elem(array), child);
        }
        link(&mut self.nodes, Place::Elem(array), child);
        true
    }

    /// Sets the member `key` of the object behind `object` to the node
    /// behind `child`. Returns whether it did: it does not where either is
    /// no node of the graph or `object` is no object.
    pub fn insert(&mut self, object: usize, key: String, child: usize) -> (r: bool)
        requires
            old(self)@.wf(),
        ensures
            final(self)@.wf(),
            r == (object < old(self)@.nodes.len() && child < old(self)@.nodes.len() && old(
                self,
            )@.nodes[object as int] is Object),
            final(self)@ == (Graph {
                nodes: if r {
                    attach(old(self)@.nodes, Slot::Member(object, key@), child)
                } else {
                    old(self)@.nodes
                },
                root: old(self)@.root,
            }),
    {
        if object >= self.nodes.len() || child >= self.nodes.len() {
            return false;
        }
        let is_object = match &self.nodes[object] {
            GNode::Object(_) => true,
            _ => false,
        };
        if !is_object {
            return false;
        }
        proof {
            lemma_attach_wf(arena(self.nodes@), Slot::Member(object, key@), child);
        }
        link(&mut self.nodes, Place::Member(object, key), child);
        true
    }
}

impl GObject {
    /// Sets the member `key` to `child`.
    pub fn insert(&mut self, key: String, child: usize)
        ensures
            final(self)@ == put(old(self)@, key@, child),
    {
        let ghost before = self@;
        let mut i: usize = 0;
        while i < self.0.len() && key_less(self.0[i].0.as_str(), key.as_str())
            invariant
                self@ == before,
                i <= self.0@.len(),
                rank(before, key@, 0) == rank(before, key@, i as int),
            decreases self.0@.len() - i,
        {
            i += 1;
        }
        proof {
            lemma_rank(before, key@, i as int);
        }
        if i < self.0.len() && self.0[i].0 == key {
            self.0[i] = (key, child);
            proof {
                assert(self@ =~= put(before, key@, child));
            }
        } else {
            self.0.insert(i, (key, child));
            proof {
                assert(self@ =~= put(before, key@, child));
            }
        }
    }

    /// The handle held under `key`, if there is a member of that key.
    pub fn get(&self, key: &str) -> (r: Option<usize>)
        ensures
            match r {
                Some(c) => exists|i: int| 0 <= i < self@.len() && self@[i] == (key@, c),
                None => forall|i: int| 0 <= i < self@.len() ==> self@[i].0 != key@,
            },
    {
        let mut i: usize = 0;
        while i < self.0.len()
            invariant
                i <= self.0@.len(),
                forall|j: int| 0 <= j < i ==> self@[j].0 != key@,
            decreases self.0@.len() - i,
        {
            if key_equal(self.0[i].0.as_str(), key) {
                assert(self@[i as int] == (key@, self.0@[i as int].1));
                return Some(self.0[i].1);
            }
            i += 1;
        }
        None
    }
}

/// An array node without elements.
pub fn empty_array() -> (r: GNode)
    ensures
        r@ == Node::Array(Seq::empty()),
{
    GNode::Array(GArray(Vec::new()))
}

/// An object node without members.
pub fn empty_object() -> (r: GNode)
    ensures
        r@ == Node::Object(Seq::empty()),
{
    let o = GObject(Vec::new());
    proof {
        assert(o@ =~= Seq::empty());
    }
    GNode::Object(o)
}

/// Adds a node to the arena and returns its handle.
pub fn add_node(nodes: &mut Vec<GNode>, node: GNode) -> (r: usize)
    ensures
        r == old(nodes)@.len(),
        final(nodes)@ == old(nodes)@.push(node),
        arena(final(nodes)@) == arena(old(nodes)@).push(node@),
        final(nodes)@.len() <= usize::MAX,
{
    let r = nodes.len();
    nodes.push(node);
    let grown = nodes.len();
    proof {
        assert(grown == nodes@.len());
        assert(arena(nodes@) =~= arena(old(nodes)@).push(node@));
    }
    r
}

/// Links `child` in at `place`.
pub fn link(nodes: &mut Vec<GNode>, place: Place, child: usize)
    ensures
        arena(final(nodes)@) == attach(arena(old(nodes)@), place@, child),
{
    let ghost before = arena(nodes@);
    match place {
        Place::Root => {},
        Place::Elem(p) => {
            if p < nodes.len() {
                match &mut nodes[p] {
                    GNode::Array(a) => {
                        a.0.push(child);
                    },
                    _ => {},
                }
            }
        },
        Place::Member(p, key) => {
            if p < nodes.len() {
                match &mut nodes[p] {
                    GNode::Object(o) => {
                        o.insert(key, child);
                    },
                    _ => {},
                }
            }
        },
    }
    proof {
        assert(arena(nodes@) =~= attach(before, place@, child));
    }
}

/// Linking a child that is a node of the arena into a well-formed arena
/// leaves it well formed.
pub proof fn lemma_attach_wf(nodes: Seq<Node>, slot: Slot, c: usize)
    requires
        arena_wf(nodes),
        c < nodes.len(),
    ensures
        arena_wf(attach(nodes, slot, c)),
        attach(nodes, slot, c).len() == nodes.len(),
{
    let out = attach(nodes, slot, c);
    match slot {
        Slot::Root => {},
        Slot::Elem(p) => {
            if p < nodes.len() && nodes[p as int] is Array {
                let kids = nodes[p as int]->Array_0;
                assert forall|n: int, i: int|
                    0 <= n < out.len() && 0 <= i < child_count(out[n]) implies (#[trigger] child(
                    out[n],
                    i,
                )) < out.len() by {
                    if n == p {
                        if i < kids.len() {
                            assert(child(out[n], i) == child(nodes[n], i));
                        }
                    } else {
                        assert(child(out[n], i) == child(nodes[n], i));
                    }
                }
            }
        },
        Slot::Member(p, key) => {
            if p < nodes.len() && nodes[p as int] is Object {
                let members = nodes[p as int]->Object_0;
                lemma_put_sorted(members, key, c);
                lemma_rank(members, key, 0);
                let r = rank(members, key, 0);
                assert forall|n: int, i: int|
                    0 <= n < out.len() && 0 <= i < child_count(out[n]) implies (#[trigger] child(
                    out[n],
                    i,
                )) < out.len() by {
                    if n == p {
                        if r < members.len() && members[r].0 == key {
                            if i != r {
                                assert(child(out[n], i) == child(nodes[n], i));
                            }
                        } else {
                            if i < r {
                                assert(child(out[n], i) == child(nodes[n], i));
                            } else if i > r {
                                assert(child(out[n], i) == child(nodes[n], i - 1));
                            }
                        }
                    } else {
                        assert(child(out[n], i) == child(nodes[n], i));
                    }
                }
            }
        },
    }
}

} // verus!
