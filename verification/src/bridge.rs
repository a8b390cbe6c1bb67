//! Between graphs and plain trees, where the graph is itself a tree.

use vstd::prelude::*;
use vstd::string::*;
use crate::graph::{
    add_node, arena, arena_wf, child, child_count, represents, GArray, GNode, GObject, Graph,
    GraphValue, Node,
};
use crate::keys::{lemma_put_sorted, put, sorted};
use crate::members::{lemma_put_alike, lemma_put_at};
use crate::inflate::{items_size, members_size, size};
use crate::rekey::{rekeyed, rekeyed_members, Keys};
use crate::roundtrip::{
    handles_of, lemma_lone_array, lemma_lone_extend, lemma_lone_object, lone, trees_of, unshared,
};
use crate::tree::{
    canonical, items_view, lemma_view_array, lemma_view_object, members_view, JsonValue, Tree,
};

verus! {

impl Graph {
    /// The root is seen as some plain tree: no path from it runs into a cycle.
    pub open spec fn unfolds(self) -> bool {
        exists|t: Tree| represents(self.nodes, self.root, t)
    }
}

/// The plain tree with each object's members set one after the other into
/// canonical order; of two members with one key the later one stays.
pub open spec fn settled(t: Tree) -> Tree {
    rekeyed(t, Keys::Kept)
}

/// What a node is seen as does not change when nodes are added to the arena.
pub proof fn lemma_represents_extend(a: Seq<Node>, b: Seq<Node>, n: usize, t: Tree)
    requires
        represents(a, n, t),
        a.len() <= b.len(),
        forall|i: int| 0 <= i < a.len() ==> a[i] == b[i],
    ensures
        represents(b, n, t),
    decreases t,
{
    match t {
        Tree::Array(items) => {
            let kids = a[n as int]->Array_0;
            assert forall|i: int| 0 <= i < items.len() implies represents(
                b,
                kids[i],
                #[trigger] items[i],
            ) by {
                lemma_represents_extend(a, b, kids[i], items[i]);
            }
        },
        Tree::Object(entries) => {
            let members = a[n as int]->Object_0;
            assert forall|i: int| 0 <= i < entries.len() implies members[i].0 == (
            #[trigger] entries[i]).0 && represents(b, members[i].1, entries[i].1) by {
                lemma_represents_extend(a, b, members[i].1, entries[i].1);
            }
        },
        _ => {},
    }
}

/// In a well-formed arena a node is seen only as a tree in canonical order.
pub proof fn lemma_represents_canonical(nodes: Seq<Node>, n: usize, t: Tree)
    requires
        arena_wf(nodes),
        represents(nodes, n, t),
    ensures
        canonical(t),
    decreases t,
{
    match t {
        Tree::Array(items) => {
            let kids = nodes[n as int]->Array_0;
            assert forall|i: int| 0 <= i < items.len() implies canonical(#[trigger] items[i]) by {
                lemma_represents_canonical(nodes, kids[i], items[i]);
            }
        },
        Tree::Object(entries) => {
            let members = nodes[n as int]->Object_0;
            assert forall|i: int| 0 <= i < entries.len() implies canonical(
                (#[trigger] entries[i]).1,
            ) by {
                lemma_represents_canonical(nodes, members[i].1, entries[i].1);
            }
            assert(sorted(members));
            assert forall|i: int, j: int| 0 <= i < j < entries.len() implies crate::keys::key_lt(
                #[trigger] entries[i].0,
                #[trigger] entries[j].0,
            ) by {
                assert(members[i].0 == entries[i].0);
                assert(members[j].0 == entries[j].0);
            }
        },
        _ => {},
    }
}

/// The plain tree seen from node `n`.
pub(crate) fn plain(nodes: &Vec<GNode>, n: usize, Ghost(t): Ghost<Tree>) -> (r: JsonValue)
    requires
        represents(arena(nodes@), n, t),
    ensures
        r@ == t,
    decreases t,
{
    match &nodes[n] {
        GNode::Null => JsonValue::Null,
        GNode::Bool(b) => JsonValue::Bool(*b),
        GNode::Number(x) => JsonValue::Number(x.clone()),
        GNode::String(s) => JsonValue::String(s.clone()),
        GNode::Array(a) => {
            let ghost trees = t->Array_0;
            let mut items: Vec<JsonValue> = Vec::new();
            let mut i: usize = 0;
            while i < a.0.len()
                invariant
                    i <= a.0@.len(),
                    n < nodes@.len(),
                    nodes@[n as int] == GNode::Array(*a),
                    t == Tree::Array(trees),
                    represents(arena(nodes@), n, t),
                    items@.len() == i,
                    forall|j: int| 0 <= j < i ==> (#[trigger] items@[j])@ == trees[j],
                decreases a.0@.len() - i,
            {
                assert(represents(arena(nodes@), a.0@[i as int], trees[i as int]));
                let item = plain(nodes, a.0[i], Ghost(trees[i as int]));
                items.push(item);
                i += 1;
            }
            let r = JsonValue::Array(items);
            proof {
                lemma_view_array(r);
                assert(items_view(items@) =~= trees);
            }
            r
        },
        GNode::Object(o) => {
            let ghost trees = t->Object_0;
            let mut members: Vec<(String, JsonValue)> = Vec::new();
            let mut i: usize = 0;
            while i < o.0.len()
                invariant
                    i <= o.0@.len(),
                    n < nodes@.len(),
                    nodes@[n as int] == GNode::Object(*o),
                    t == Tree::Object(trees),
                    represents(arena(nodes@), n, t),
                    members@.len() == i,
                    forall|j: int|
                        0 <= j < i ==> (#[trigger] members@[j]).0@ == trees[j].0 && members@[j].1@
                            == trees[j].1,
                decreases o.0@.len() - i,
            {
                assert(o@[i as int] == (o.0@[i as int].0@, o.0@[i as int].1));
                assert(o@[i as int].0 == trees[i as int].0 && represents(
                    arena(nodes@),
                    o@[i as int].1,
                    trees[i as int].1,
                ));
                let item = plain(nodes, o.0[i].1, Ghost(trees[i as int].1));
                members.push((o.0[i].0.clone(), item));
                i += 1;
            }
            let r = JsonValue::Object(members);
            proof {
                lemma_view_object(r);
                assert(members_view(members@) =~= trees);
            }
            r
        },
    }
}

/// The plain tree that a value is seen as.
///
/// The value must have one: a value from which a cycle can be reached is
/// seen as no plain tree.
pub fn to_json(value: &GraphValue) -> (r: JsonValue)
    requires
        value@.wf(),
        value@.unfolds(),
    ensures
        represents(value@.nodes, value@.root, r@),
        canonical(r@),
{
    let nodes = value.arena_nodes();
    let root = value.root();
    let ghost t = choose|t: Tree| represents(value@.nodes, value@.root, t);
    proof {
        lemma_represents_canonical(value@.nodes, value@.root, t);
    }
    plain(nodes, root, Ghost(t))
}

/// Adds fresh nodes for the plain tree to the arena, children before
/// parents, and returns the handle of the tree's own node.
fn build(value: &JsonValue, nodes: &mut Vec<GNode>) -> (r: usize)
    requires
        arena_wf(arena(old(nodes)@)),
    ensures
        arena_wf(arena(final(nodes)@)),
        old(nodes)@.len() <= r < final(nodes)@.len(),
        final(nodes)@.len() == old(nodes)@.len() + size(value@),
        forall|i: int| 0 <= i < old(nodes)@.len() ==> final(nodes)@[i] == old(nodes)@[i],
        lone(arena(final(nodes)@), r, settled(value@), old(nodes)@.len() as int),
    decreases value@,
{
    let ghost start = nodes@;
    match value {
        JsonValue::Null => {
            let r = add_node(nodes, GNode::Null);
            proof {
                lemma_leaf_wf(arena(start), Node::Null);
            }
            r
        },
        JsonValue::Bool(b) => {
            let r = add_node(nodes, GNode::Bool(*b));
            proof {
                lemma_leaf_wf(arena(start), Node::Bool(*b));
            }
            r
        },
        JsonValue::Number(x) => {
            let r = add_node(nodes, GNode::Number(x.clone()));
            proof {
                lemma_leaf_wf(arena(start), Node::Number(*x));
            }
            r
        },
        JsonValue::String(s) => {
            let r = add_node(nodes, GNode::String(s.clone()));
            proof {
                lemma_leaf_wf(arena(start), Node::String(s@));
            }
            r
        },
        JsonValue::Array(items) => {
            let ghost trees = items_view(items@);
            let ghost mut floors: Map<usize, int> = Map::empty();
            proof {
                lemma_view_array(*value);
            }
            let mut kids: Vec<usize> = Vec::new();
            let mut i: usize = 0;
            while i < items.len()
                invariant
                    i <= items@.len(),
                    value@ == Tree::Array(trees),
                    trees == items_view(items@),
                    arena_wf(arena(nodes@)),
                    start.len() <= nodes@.len(),
                    nodes@.len() + items_size(trees, i as int) == start.len() + items_size(
                        trees,
                        0,
                    ),
                    forall|k: int| 0 <= k < start.len() ==> nodes@[k] == start[k],
                    kids@.len() == i,
                    forall|j: int|
                        0 <= j < i ==> floors.contains_key(#[trigger] kids@[j]) && lone(
                            arena(nodes@),
                            kids@[j],
                            settled(trees[j]),
                            floors[kids@[j]],
                        ) && start.len() <= floors[kids@[j]] && kids@[j] < nodes@.len(),
                    forall|j: int, w: int|
                        0 <= j < i && 0 <= w < i && j != w ==> (#[trigger] kids@[j]) != (
                        #[trigger] kids@[w]) && (kids@[j] < kids@[w] ==> kids@[j]
                            < floors[kids@[w]]),
                decreases items@.len() - i,
            {
                let ghost mid = nodes@;
                let ghost held = kids@;
                let ghost before = floors;
                assert(trees[i as int] == items@[i as int]@);
                assert(value@->Array_0 == trees);
                assert(decreases_to!(value@ => value@->Array_0));
                assert(decreases_to!(trees => trees[i as int]));
                assert(decreases_to!(value@ => trees[i as int]));
                let c = build(&items[i], nodes);
                kids.push(c);
                proof {
                    floors = before.insert(c, mid.len() as int);
                    assert forall|j: int| 0 <= j < i + 1 implies floors.contains_key(
                        #[trigger] kids@[j],
                    ) && lone(arena(nodes@), kids@[j], settled(trees[j]), floors[kids@[j]])
                        && start.len() <= floors[kids@[j]] && kids@[j] < nodes@.len() by {
                        if j < i {
                            assert(kids@[j] == held[j]);
                            assert(before.contains_key(held[j]));
                            lemma_lone_extend(
                                arena(mid),
                                arena(nodes@),
                                held[j],
                                settled(trees[j]),
                                before[held[j]],
                            );
                        }
                    }
                    assert forall|j: int, w: int|
                        0 <= j < i + 1 && 0 <= w < i + 1 && j != w implies (#[trigger] kids@[j])
                        != (#[trigger] kids@[w]) && (kids@[j] < kids@[w] ==> kids@[j]
                        < floors[kids@[w]]) by {
                        if j < i {
                            assert(kids@[j] == held[j]);
                        }
                        if w < i {
                            assert(kids@[w] == held[w]);
                        }
                    }
                }
                i += 1;
            }
            let ghost inner = nodes@;
            let ghost handles = kids@;
            let r = add_node(nodes, GNode::Array(GArray(kids)));
            proof {
                let done = settled(value@)->Array_0;
                let node = Node::Array(handles);
                assert forall|j: int| 0 <= j < done.len() implies floors.contains_key(
                    #[trigger] handles[j],
                ) && lone(arena(nodes@), handles[j], done[j], floors[handles[j]]) by {
                    assert(done[j] == settled(trees[j]));
                    lemma_lone_extend(
                        arena(inner),
                        arena(nodes@),
                        handles[j],
                        done[j],
                        floors[handles[j]],
                    );
                }
                assert forall|j: int| 0 <= j < child_count(node) implies (#[trigger] child(
                    node,
                    j,
                )) < inner.len() by {
                    assert(handles[j] < inner.len());
                }
                lemma_node_wf(arena(inner), node);
                lemma_lone_array(arena(nodes@), r, done, floors, start.len() as int);
            }
            r
        },
        JsonValue::Object(members) => {
            let ghost trees = members_view(members@);
            let ghost mut floors: Map<usize, int> = Map::empty();
            proof {
                lemma_view_object(*value);
            }
            let mut o = GObject(Vec::new());
            proof {
                assert(o@ =~= Seq::empty());
            }
            let mut i: usize = 0;
            while i < members.len()
                invariant
                    i <= members@.len(),
                    value@ == Tree::Object(trees),
                    trees == members_view(members@),
                    arena_wf(arena(nodes@)),
                    start.len() <= nodes@.len(),
                    nodes@.len() + members_size(trees, i as int) == start.len() + members_size(
                        trees,
                        0,
                    ),
                    forall|k: int| 0 <= k < start.len() ==> nodes@[k] == start[k],
                    sorted(o@),
                    o@.len() == rekeyed_members(trees, i as int, Keys::Kept).len(),
                    forall|j: int|
                        0 <= j < o@.len() ==> (#[trigger] o@[j]).0 == rekeyed_members(
                            trees,
                            i as int,
                            Keys::Kept,
                        )[j].0 && floors.contains_key(o@[j].1) && lone(
                            arena(nodes@),
                            o@[j].1,
                            rekeyed_members(trees, i as int, Keys::Kept)[j].1,
                            floors[o@[j].1],
                        ) && start.len() <= floors[o@[j].1] && o@[j].1 < nodes@.len(),
                    forall|j: int, w: int|
                        0 <= j < o@.len() && 0 <= w < o@.len() && j != w ==> (#[trigger] o@[j]).1
                            != (#[trigger] o@[w]).1 && (o@[j].1 < o@[w].1 ==> o@[j].1
                            < floors[o@[w].1]),
                decreases members@.len() - i,
            {
                let ghost mid = nodes@;
                let ghost done = rekeyed_members(trees, i as int, Keys::Kept);
                let ghost held = o@;
                let ghost before = floors;
                assert(trees[i as int].1 == members@[i as int].1@);
                assert(value@->Object_0 == trees);
                assert(decreases_to!(value@ => value@->Object_0));
                assert(decreases_to!(trees => trees[i as int]));
                assert(decreases_to!(trees[i as int] => trees[i as int].1));
                assert(decreases_to!(value@ => trees[i as int].1));
                let c = build(&members[i].1, nodes);
                o.insert(members[i].0.clone(), c);
                proof {
                    floors = before.insert(c, mid.len() as int);
                    let key = trees[i as int].0;
                    let sub = settled(trees[i as int].1);
                    let now = rekeyed_members(trees, i + 1, Keys::Kept);
                    assert(now == put(done, key, sub));
                    assert(o@ == put(held, key, c));
                    lemma_put_sorted(held, key, c);
                    lemma_put_alike(held, done, key, c, sub);
                    let rk = crate::keys::rank(held, key, 0);
                    let replaced = rk < held.len() && held[rk].0 == key;
                    assert forall|j: int| 0 <= j < o@.len() implies (#[trigger] o@[j]).0
                        == now[j].0 && floors.contains_key(o@[j].1) && lone(
                        arena(nodes@),
                        o@[j].1,
                        now[j].1,
                        floors[o@[j].1],
                    ) && start.len() <= floors[o@[j].1] && o@[j].1 < nodes@.len() by {
                        lemma_put_at(held, key, c, j);
                        lemma_put_at(done, key, sub, j);
                        if j != rk {
                            let j0 = if replaced || j < rk {
                                j
                            } else {
                                j - 1
                            };
                            assert(o@[j] == held[j0]);
                            assert(now[j] == done[j0]);
                            assert(before.contains_key(held[j0].1));
                            lemma_lone_extend(
                                arena(mid),
                                arena(nodes@),
                                held[j0].1,
                                done[j0].1,
                                before[held[j0].1],
                            );
                        }
                    }
                    assert forall|j: int, w: int|
                        0 <= j < o@.len() && 0 <= w < o@.len() && j != w implies (
                    #[trigger] o@[j]).1 != (#[trigger] o@[w]).1 && (o@[j].1 < o@[w].1 ==> o@[j].1
                        < floors[o@[w].1]) by {
                        lemma_put_at(held, key, c, j);
                        lemma_put_at(held, key, c, w);
                        if j != rk {
                            let j0 = if replaced || j < rk {
                                j
                            } else {
                                j - 1
                            };
                            assert(o@[j] == held[j0]);
                            assert(held[j0].1 < mid.len());
                        }
                        if w != rk {
                            let w0 = if replaced || w < rk {
                                w
                            } else {
                                w - 1
                            };
                            assert(o@[w] == held[w0]);
                            assert(held[w0].1 < mid.len());
                        }
                    }
                }
                i += 1;
            }
            let ghost inner = nodes@;
            let ghost held = o@;
            let r = add_node(nodes, GNode::Object(o));
            proof {
                let done = rekeyed_members(trees, trees.len() as int, Keys::Kept);
                let node = Node::Object(held);
                let hs = handles_of(held);
                let ts = trees_of(done);
                assert forall|j: int| 0 <= j < hs.len() implies floors.contains_key(
                    #[trigger] hs[j],
                ) && lone(arena(nodes@), hs[j], ts[j], floors[hs[j]]) by {
                    assert(hs[j] == held[j].1 && ts[j] == done[j].1);
                    lemma_lone_extend(
                        arena(inner),
                        arena(nodes@),
                        held[j].1,
                        done[j].1,
                        floors[held[j].1],
                    );
                }
                assert forall|j: int, w: int|
                    0 <= j < hs.len() && 0 <= w < hs.len() && j != w implies (#[trigger] hs[j])
                    != (#[trigger] hs[w]) && (hs[j] < hs[w] ==> hs[j] < floors[hs[w]]) by {
                    assert(hs[j] == held[j].1 && hs[w] == held[w].1);
                }
                assert forall|j: int| 0 <= j < child_count(node) implies (#[trigger] child(
                    node,
                    j,
                )) < inner.len() by {
                    assert(held[j].1 < inner.len());
                }
                lemma_node_wf(arena(inner), node);
                assert forall|q: int| 0 <= q < done.len() implies start.len() <= floors[(
                #[trigger] arena(nodes@)[r as int]->Object_0[q]).1] && arena(
                    nodes@,
                )[r as int]->Object_0[q].1 < r by {
                    assert(held[q].1 < inner.len());
                }
                lemma_lone_object(arena(nodes@), r, done, floors, start.len() as int);
            }
            r
        },
    }
}

/// A well-formed arena stays so when a node without children is added.
pub proof fn lemma_leaf_wf(nodes: Seq<Node>, node: Node)
    requires
        arena_wf(nodes),
        nodes.len() < usize::MAX,
        child_count(node) == 0,
    ensures
        arena_wf(nodes.push(node)),
{
    lemma_node_wf(nodes, node);
}

/// A well-formed arena stays so when a node is added whose children are
/// nodes of the arena and whose members are in canonical order.
pub proof fn lemma_node_wf(nodes: Seq<Node>, node: Node)
    requires
        arena_wf(nodes),
        nodes.len() < usize::MAX,
        forall|j: int| 0 <= j < child_count(node) ==> (#[trigger] child(node, j)) <= nodes.len(),
        node matches Node::Object(members) ==> sorted(members),
    ensures
        arena_wf(nodes.push(node)),
{
    let out = nodes.push(node);
    assert forall|n: int, i: int|
        0 <= n < out.len() && 0 <= i < child_count(out[n]) implies (#[trigger] child(out[n], i))
        < out.len() by {
        if n < nodes.len() {
            assert(out[n] == nodes[n]);
        }
    }
    assert forall|n: int| 0 <= n < out.len() implies (#[trigger] out[n] matches Node::Object(
        members,
    ) ==> sorted(members)) by {
        if n < nodes.len() {
            assert(out[n] == nodes[n]);
        }
    }
}

/// A graph of fresh nodes that is seen as the plain tree, one node for each
/// node of the tree, no container of them shared.
pub fn from_json(value: &JsonValue) -> (r: GraphValue)
    ensures
        r@.wf(),
        represents(r@.nodes, r@.root, settled(value@)),
        unshared(r@.nodes, r@.root, settled(value@)),
        r@.nodes.len() == size(value@),
{
    let mut nodes: Vec<GNode> = Vec::new();
    proof {
        assert(arena(nodes@) =~= Seq::empty());
    }
    let root = build(value, &mut nodes);
    GraphValue::from_parts(nodes, root)
}

} // verus!
