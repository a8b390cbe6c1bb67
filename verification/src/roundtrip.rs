//! Encoding and then decoding a graph that is a tree gives a graph that is
//! seen as the same plain tree.

use vstd::prelude::*;
use crate::bridge::lemma_represents_canonical;
use crate::deflate::{
    deflate_spec, encode_run, encode_step, encoding_start, work_of, Encoding,
};
use crate::error::CodecError;
use crate::graft::{
    blank_of, closed, graft, graft_items, graft_members, lemma_graft,
};
use crate::graph::{
    lemma_represents_unique, lemma_unfold_represents, represents, unfold, Graph, Node, Slot,
};
use crate::inflate::{
    all_owned, decoding_start, inflate_spec, is_marker, marker_value, open_node, place,
    place_items, place_members, size, Decoding,
};
use crate::keys::{escaped, marker_key};
use crate::rekey::{lemma_escape_round, rekeyed, unmarked, Keys};
use crate::tree::Tree;

verus! {

/// How often the container `c` is met on the way through the tree that is
/// seen from node `n`.
pub open spec fn occurs(g: Seq<Node>, n: usize, t: Tree, c: usize) -> nat
    decreases t, 0nat,
{
    match t {
        Tree::Array(items) => (if n == c {
            1nat
        } else {
            0nat
        }) + occurs_items(g, g[n as int], items, 0, c),
        Tree::Object(members) => (if n == c {
            1nat
        } else {
            0nat
        }) + occurs_members(g, g[n as int], members, 0, c),
        _ => 0,
    }
}

/// How often `c` is met below the elements from index `i` on.
pub open spec fn occurs_items(g: Seq<Node>, node: Node, items: Seq<Tree>, i: int, c: usize) -> nat
    decreases items, items.len() - i,
{
    if 0 <= i < items.len() {
        occurs(g, node->Array_0[i], items[i], c) + occurs_items(g, node, items, i + 1, c)
    } else {
        0
    }
}

/// How often `c` is met below the members from index `i` on.
pub open spec fn occurs_members(
    g: Seq<Node>,
    node: Node,
    members: Seq<(Seq<char>, Tree)>,
    i: int,
    c: usize,
) -> nat
    decreases members, members.len() - i,
{
    if 0 <= i < members.len() {
        occurs(g, node->Object_0[i].1, members[i].1, c) + occurs_members(
            g,
            node,
            members,
            i + 1,
            c,
        )
    } else {
        0
    }
}

/// The graph seen from `n` as the tree `t` shares no container: none is
/// met twice on the way through the tree.
pub open spec fn unshared(g: Seq<Node>, n: usize, t: Tree) -> bool {
    forall|c: usize| #[trigger] occurs(g, n, t, c) <= 1
}

proof fn lemma_no_marker(members: Seq<(Seq<char>, Tree)>, i: int)
    requires
        0 <= i <= members.len(),
        forall|j: int| 0 <= j < members.len() ==> (#[trigger] members[j]).0 != marker_key(),
    ensures
        marker_value(members, i) is None,
    decreases members.len() - i,
{
    if i < members.len() {
        lemma_no_marker(members, i + 1);
    }
}

/// A document without marker keys is read as it stands: its tree is set
/// into the arena with the keys unescaped, and no id is registered.
pub proof fn lemma_place_unmarked(t: Tree, slot: Slot, st: Decoding)
    requires
        unmarked(t),
    ensures
        place(t, slot, st) == Ok::<Decoding, CodecError>(
            Decoding { nodes: graft(t, slot, st.nodes, Keys::Unescaped), refs: st.refs },
        ),
    decreases t, 0nat,
{
    let fresh = st.nodes.len() as usize;
    match t {
        Tree::Array(items) => {
            if items.len() > 0 {
                assert(unmarked(items[0]));
                if is_marker(items[0]) {
                    assert(items[0]->Object_0[0].0 != marker_key());
                }
            }
            let o = open_node(t, st)->Ok_0;
            let st1 = Decoding { nodes: crate::graph::attach(o.state.nodes, slot, o.node), refs: o.state.refs };
            lemma_place_items_unmarked(items, 0, fresh, st1);
        },
        Tree::Object(members) => {
            if is_marker(t) {
                assert(members[0].0 != marker_key());
            }
            lemma_no_marker(members, 0);
            let o = open_node(t, st)->Ok_0;
            let st1 = Decoding { nodes: crate::graph::attach(o.state.nodes, slot, o.node), refs: o.state.refs };
            lemma_place_members_unmarked(members, 0, fresh, st1);
        },
        _ => {},
    }
}

proof fn lemma_place_items_unmarked(items: Seq<Tree>, i: int, p: usize, st: Decoding)
    requires
        0 <= i <= items.len(),
        forall|j: int| 0 <= j < items.len() ==> unmarked(#[trigger] items[j]),
    ensures
        place_items(items, i, p, st) == Ok::<Decoding, CodecError>(
            Decoding { nodes: graft_items(items, i, p, st.nodes, Keys::Unescaped), refs: st.refs },
        ),
    decreases items, items.len() - i,
{
    if i < items.len() {
        lemma_place_unmarked(items[i], Slot::Elem(p), st);
        let st1 = place(items[i], Slot::Elem(p), st)->Ok_0;
        lemma_place_items_unmarked(items, i + 1, p, st1);
    }
}

proof fn lemma_place_members_unmarked(
    members: Seq<(Seq<char>, Tree)>,
    i: int,
    p: usize,
    st: Decoding,
)
    requires
        0 <= i <= members.len(),
        forall|j: int|
            0 <= j < members.len() ==> (#[trigger] members[j]).0 != marker_key() && unmarked(
                members[j].1,
            ),
    ensures
        place_members(members, i, p, st) == Ok::<Decoding, CodecError>(
            Decoding {
                nodes: graft_members(members, i, p, st.nodes, Keys::Unescaped),
                refs: st.refs,
            },
        ),
    decreases members, members.len() - i,
{
    if i < members.len() {
        let slot = Slot::Member(p, crate::keys::unescaped(members[i].0));
        lemma_place_unmarked(members[i].1, slot, st);
        let st1 = place(members[i].1, slot, st)->Ok_0;
        lemma_place_members_unmarked(members, i + 1, p, st1);
    }
}

/// The visit of a node from which no container is shared, with all that
/// follows from it, sets the node's tree into the output with the keys
/// escaped, gives no id, and enters in the identity table only containers
/// of that tree.
proof fn lemma_visit(g: Seq<Node>, limit: i32, st: Encoding, t: Tree) -> (st2: Encoding)
    requires
        st.stack.len() > 0,
        represents(g, st.stack.last().0, t),
        st.seen.len() == g.len(),
        unshared(g, st.stack.last().0, t),
        forall|c: usize|
            c < g.len() && occurs(g, st.stack.last().0, t, c) >= 1 ==> (
            #[trigger] st.seen[c as int]) is None,
    ensures
        encode_run(g, limit, st) == encode_run(g, limit, st2),
        st2.stack == st.stack.drop_last(),
        st2.out == graft(t, st.stack.last().1, st.out, Keys::Escaped),
        st2.order == st.order,
        st2.seen.len() == g.len(),
        forall|c: usize|
            c < g.len() && occurs(g, st.stack.last().0, t, c) == 0 ==> (
            #[trigger] st2.seen[c as int]) == st.seen[c as int],
    decreases t, 0nat,
{
    let n = st.stack.last().0;
    let slot = st.stack.last().1;
    let rest = st.stack.drop_last();
    let st1 = encode_step(g, limit, st)->Ok_0;
    let p = st.out.len() as usize;
    assert(occurs(g, n, t, n) <= 1);
    match t {
        Tree::Array(items) => {
            assert(st.seen[n as int] is None);
            assert(st1.stack =~= rest + work_of(g[n as int], p).take(items.len() as int));
            assert forall|c: usize| #[trigger] occurs_items(g, g[n as int], items, 0, c) <= 1 by {
                assert(occurs(g, n, t, c) <= 1);
            }
            assert forall|c: usize|
                c < g.len() && occurs_items(g, g[n as int], items, 0, c) >= 1 implies (
            #[trigger] st1.seen[c as int]) is None by {
                assert(occurs(g, n, t, c) <= 1);
                assert(st.seen[c as int] is None);
            }
            let st2 = lemma_visit_items(g, limit, st1, rest, g[n as int], items, 0, p);
            assert forall|c: usize| c < g.len() && occurs(g, n, t, c) == 0 implies (
            #[trigger] st2.seen[c as int]) == st.seen[c as int] by {
                assert(st2.seen[c as int] == st1.seen[c as int]);
            }
            st2
        },
        Tree::Object(members) => {
            assert(st.seen[n as int] is None);
            assert(st1.stack =~= rest + work_of(g[n as int], p).take(members.len() as int));
            assert forall|c: usize| #[trigger]
                occurs_members(g, g[n as int], members, 0, c) <= 1 by {
                assert(occurs(g, n, t, c) <= 1);
            }
            assert forall|c: usize|
                c < g.len() && occurs_members(g, g[n as int], members, 0, c) >= 1 implies (
            #[trigger] st1.seen[c as int]) is None by {
                assert(occurs(g, n, t, c) <= 1);
                assert(st.seen[c as int] is None);
            }
            let st2 = lemma_visit_members(g, limit, st1, rest, g[n as int], members, 0, p);
            assert forall|c: usize| c < g.len() && occurs(g, n, t, c) == 0 implies (
            #[trigger] st2.seen[c as int]) == st.seen[c as int] by {
                assert(st2.seen[c as int] == st1.seen[c as int]);
            }
            st2
        },
        _ => {
            assert(g[n as int] == blank_of(t));
            st1
        },
    }
}

proof fn lemma_visit_items(
    g: Seq<Node>,
    limit: i32,
    st: Encoding,
    rest: Seq<(usize, Slot)>,
    node: Node,
    items: Seq<Tree>,
    i: int,
    p: usize,
) -> (st2: Encoding)
    requires
        0 <= i <= items.len(),
        node is Array,
        node->Array_0.len() == items.len(),
        st.stack == rest + work_of(node, p).take(items.len() - i),
        forall|j: int| i <= j < items.len() ==> represents(g, node->Array_0[j], #[trigger] items[j]),
        st.seen.len() == g.len(),
        forall|c: usize| #[trigger] occurs_items(g, node, items, i, c) <= 1,
        forall|c: usize|
            c < g.len() && occurs_items(g, node, items, i, c) >= 1 ==> (
            #[trigger] st.seen[c as int]) is None,
    ensures
        encode_run(g, limit, st) == encode_run(g, limit, st2),
        st2.stack == rest,
        st2.out == graft_items(items, i, p, st.out, Keys::Escaped),
        st2.order == st.order,
        st2.seen.len() == g.len(),
        forall|c: usize|
            c < g.len() && occurs_items(g, node, items, i, c) == 0 ==> (
            #[trigger] st2.seen[c as int]) == st.seen[c as int],
    decreases items, items.len() - i,
{
    if i < items.len() {
        let kids = node->Array_0;
        let work = work_of(node, p);
        let top = work.take(items.len() - i);
        assert(st.stack.last() == top[items.len() - i - 1]);
        assert(st.stack.last() == (kids[i], Slot::Elem(p)));
        assert(st.stack.drop_last() =~= rest + work.take(items.len() - (i + 1)));
        assert forall|c: usize| #[trigger] occurs(g, kids[i], items[i], c) <= 1 by {
            assert(occurs_items(g, node, items, i, c) <= 1);
        }
        assert forall|c: usize| c < g.len() && occurs(g, kids[i], items[i], c) >= 1 implies (
        #[trigger] st.seen[c as int]) is None by {
            assert(occurs_items(g, node, items, i, c) <= 1);
        }
        let st1 = lemma_visit(g, limit, st, items[i]);
        assert forall|c: usize| #[trigger] occurs_items(g, node, items, i + 1, c) <= 1 by {
            assert(occurs_items(g, node, items, i, c) <= 1);
        }
        assert forall|c: usize|
            c < g.len() && occurs_items(g, node, items, i + 1, c) >= 1 implies (
        #[trigger] st1.seen[c as int]) is None by {
            assert(occurs_items(g, node, items, i, c) <= 1);
            assert(occurs(g, kids[i], items[i], c) == 0);
            assert(st.seen[c as int] is None);
        }
        let st2 = lemma_visit_items(g, limit, st1, rest, node, items, i + 1, p);
        assert forall|c: usize|
            c < g.len() && occurs_items(g, node, items, i, c) == 0 implies (
        #[trigger] st2.seen[c as int]) == st.seen[c as int] by {
            assert(st2.seen[c as int] == st1.seen[c as int]);
        }
        st2
    } else {
        assert(st.stack =~= rest);
        st
    }
}

proof fn lemma_visit_members(
    g: Seq<Node>,
    limit: i32,
    st: Encoding,
    rest: Seq<(usize, Slot)>,
    node: Node,
    members: Seq<(Seq<char>, Tree)>,
    i: int,
    p: usize,
) -> (st2: Encoding)
    requires
        0 <= i <= members.len(),
        node is Object,
        node->Object_0.len() == members.len(),
        st.stack == rest + work_of(node, p).take(members.len() - i),
        forall|j: int|
            i <= j < members.len() ==> node->Object_0[j].0 == (#[trigger] members[j]).0
                && represents(g, node->Object_0[j].1, members[j].1),
        st.seen.len() == g.len(),
        forall|c: usize| #[trigger] occurs_members(g, node, members, i, c) <= 1,
        forall|c: usize|
            c < g.len() && occurs_members(g, node, members, i, c) >= 1 ==> (
            #[trigger] st.seen[c as int]) is None,
    ensures
        encode_run(g, limit, st) == encode_run(g, limit, st2),
        st2.stack == rest,
        st2.out == graft_members(members, i, p, st.out, Keys::Escaped),
        st2.order == st.order,
        st2.seen.len() == g.len(),
        forall|c: usize|
            c < g.len() && occurs_members(g, node, members, i, c) == 0 ==> (
            #[trigger] st2.seen[c as int]) == st.seen[c as int],
    decreases members, members.len() - i,
{
    if i < members.len() {
        let held = node->Object_0;
        let work = work_of(node, p);
        let top = work.take(members.len() - i);
        assert(st.stack.last() == top[members.len() - i - 1]);
        assert(st.stack.last() == (held[i].1, Slot::Member(p, escaped(held[i].0))));
        assert(st.stack.drop_last() =~= rest + work.take(members.len() - (i + 1)));
        assert forall|c: usize| #[trigger] occurs(g, held[i].1, members[i].1, c) <= 1 by {
            assert(occurs_members(g, node, members, i, c) <= 1);
        }
        assert forall|c: usize|
            c < g.len() && occurs(g, held[i].1, members[i].1, c) >= 1 implies (
        #[trigger] st.seen[c as int]) is None by {
            assert(occurs_members(g, node, members, i, c) <= 1);
        }
        let st1 = lemma_visit(g, limit, st, members[i].1);
        assert forall|c: usize| #[trigger] occurs_members(g, node, members, i + 1, c) <= 1 by {
            assert(occurs_members(g, node, members, i, c) <= 1);
        }
        assert forall|c: usize|
            c < g.len() && occurs_members(g, node, members, i + 1, c) >= 1 implies (
        #[trigger] st1.seen[c as int]) is None by {
            assert(occurs_members(g, node, members, i, c) <= 1);
            assert(occurs(g, held[i].1, members[i].1, c) == 0);
            assert(st.seen[c as int] is None);
        }
        let st2 = lemma_visit_members(g, limit, st1, rest, node, members, i + 1, p);
        assert forall|c: usize|
            c < g.len() && occurs_members(g, node, members, i, c) == 0 implies (
        #[trigger] st2.seen[c as int]) == st.seen[c as int] by {
            assert(st2.seen[c as int] == st1.seen[c as int]);
        }
        st2
    } else {
        assert(st.stack =~= rest);
        st
    }
}

/// A graph in which no container is shared and none lies on a cycle is
/// encoded as its plain tree with the keys escaped, whatever the limit on
/// reference ids.
pub proof fn lemma_deflate_unshared(g: Graph, t: Tree, limit: i32)
    requires
        g.wf(),
        represents(g.nodes, g.root, t),
        unshared(g.nodes, g.root, t),
        size(t) <= usize::MAX,
    ensures
        deflate_spec(g, limit) == Ok::<Tree, CodecError>(rekeyed(t, Keys::Escaped)),
{
    let st = encoding_start(g);
    assert(st.stack.last() == (g.root, Slot::Root));
    let st2 = lemma_visit(g.nodes, limit, st, t);
    assert(st2.stack =~= Seq::empty());
    lemma_graft(t, Slot::Root, st.out, Keys::Escaped);
    assert(crate::graph::ordered(st2.out));
    lemma_unfold_represents(st2.out, 0);
    lemma_represents_unique(st2.out, 0, unfold(st2.out, 0), rekeyed(t, Keys::Escaped));
}

/// A document without marker keys decodes to a graph that is seen as the
/// document with its keys unescaped.
pub proof fn lemma_inflate_unmarked(d: Tree)
    requires
        unmarked(d),
        size(d) <= usize::MAX,
    ensures
        inflate_spec(d) matches Ok(g) && g.wf() && represents(
            g.nodes,
            g.root,
            rekeyed(d, Keys::Unescaped),
        ),
{
    lemma_place_unmarked(d, Slot::Root, decoding_start());
    lemma_graft(d, Slot::Root, decoding_start().nodes, Keys::Unescaped);
    let st = place(d, Slot::Root, decoding_start())->Ok_0;
    assert(all_owned(st.refs));
    assert(closed(st.nodes, 0));
}

/// The round trip on graphs that are trees: where no container is shared
/// and none lies on a cycle, the graph is encoded, the encoding is decoded,
/// and the graph that comes back is seen as the same plain tree.
/// This holds where the tree has no more nodes than a handle can count.
pub proof fn lemma_round_trip_unshared(g: Graph, t: Tree, limit: i32)
    requires
        g.wf(),
        represents(g.nodes, g.root, t),
        unshared(g.nodes, g.root, t),
        size(t) <= usize::MAX,
    ensures
        deflate_spec(g, limit) matches Ok(d) && inflate_spec(d) matches Ok(back) && back.wf()
            && represents(back.nodes, back.root, t),
{
    lemma_deflate_unshared(g, t, limit);
    lemma_represents_canonical(g.nodes, g.root, t);
    lemma_escape_round(t);
    crate::rekey::lemma_rekeyed_size(t, Keys::Escaped);
    lemma_inflate_unmarked(rekeyed(t, Keys::Escaped));
}

/// The tree is seen from `h` without a container met twice, and every
/// container met lies from `lo` up to `h`.
pub open spec fn lone(g: Seq<Node>, h: usize, t: Tree, lo: int) -> bool {
    &&& represents(g, h, t)
    &&& forall|c: usize| #[trigger]
        occurs(g, h, t, c) <= 1 && (occurs(g, h, t, c) >= 1 ==> lo <= c <= h)
}

/// How often a container is met does not change when nodes are added to
/// the arena.
pub proof fn lemma_occurs_extend(a: Seq<Node>, b: Seq<Node>, n: usize, t: Tree, c: usize)
    requires
        represents(a, n, t),
        a.len() <= b.len(),
        forall|i: int| 0 <= i < a.len() ==> a[i] == b[i],
    ensures
        occurs(b, n, t, c) == occurs(a, n, t, c),
    decreases t, 0nat,
{
    match t {
        Tree::Array(items) => {
            lemma_occurs_items_extend(a, b, a[n as int], items, 0, c);
        },
        Tree::Object(members) => {
            lemma_occurs_members_extend(a, b, a[n as int], members, 0, c);
        },
        _ => {},
    }
}

proof fn lemma_occurs_items_extend(
    a: Seq<Node>,
    b: Seq<Node>,
    node: Node,
    items: Seq<Tree>,
    i: int,
    c: usize,
)
    requires
        node is Array,
        node->Array_0.len() == items.len(),
        0 <= i <= items.len(),
        forall|j: int| i <= j < items.len() ==> represents(a, node->Array_0[j], #[trigger] items[j]),
        a.len() <= b.len(),
        forall|k: int| 0 <= k < a.len() ==> a[k] == b[k],
    ensures
        occurs_items(b, node, items, i, c) == occurs_items(a, node, items, i, c),
    decreases items, items.len() - i,
{
    if i < items.len() {
        lemma_occurs_extend(a, b, node->Array_0[i], items[i], c);
        lemma_occurs_items_extend(a, b, node, items, i + 1, c);
    }
}

proof fn lemma_occurs_members_extend(
    a: Seq<Node>,
    b: Seq<Node>,
    node: Node,
    members: Seq<(Seq<char>, Tree)>,
    i: int,
    c: usize,
)
    requires
        node is Object,
        node->Object_0.len() == members.len(),
        0 <= i <= members.len(),
        forall|j: int|
            i <= j < members.len() ==> represents(a, node->Object_0[j].1, (#[trigger] members[j]).1),
        a.len() <= b.len(),
        forall|k: int| 0 <= k < a.len() ==> a[k] == b[k],
    ensures
        occurs_members(b, node, members, i, c) == occurs_members(a, node, members, i, c),
    decreases members, members.len() - i,
{
    if i < members.len() {
        lemma_occurs_extend(a, b, node->Object_0[i].1, members[i].1, c);
        lemma_occurs_members_extend(a, b, node, members, i + 1, c);
    }
}

/// A tree that is seen alone stays so when nodes are added to the arena.
pub proof fn lemma_lone_extend(a: Seq<Node>, b: Seq<Node>, h: usize, t: Tree, lo: int)
    requires
        lone(a, h, t, lo),
        a.len() <= b.len(),
        forall|i: int| 0 <= i < a.len() ==> a[i] == b[i],
    ensures
        lone(b, h, t, lo),
{
    crate::bridge::lemma_represents_extend(a, b, h, t);
    assert forall|c: usize| #[trigger]
        occurs(b, h, t, c) <= 1 && (occurs(b, h, t, c) >= 1 ==> lo <= c <= h) by {
        lemma_occurs_extend(a, b, h, t, c);
        assert(occurs(a, h, t, c) <= 1);
    }
}

/// The children from `i` on are each seen alone, each within a stretch of
/// the arena of its own.
pub open spec fn apart(
    g: Seq<Node>,
    hs: Seq<usize>,
    ts: Seq<Tree>,
    floors: Map<usize, int>,
    i: int,
) -> bool {
    &&& hs.len() == ts.len()
    &&& forall|q: int|
        i <= q < hs.len() ==> floors.contains_key(#[trigger] hs[q]) && lone(
            g,
            hs[q],
            ts[q],
            floors[hs[q]],
        )
    &&& forall|q: int, w: int|
        i <= q < hs.len() && i <= w < hs.len() && q != w ==> (#[trigger] hs[q]) != (
        #[trigger] hs[w]) && (hs[q] < hs[w] ==> hs[q] < floors[hs[w]])
}

/// The handles of the members of an object, in the order of the members.
pub open spec fn handles_of(held: Seq<(Seq<char>, usize)>) -> Seq<usize> {
    Seq::new(held.len(), |i: int| held[i].1)
}

/// The trees of the members of an object, in the order of the members.
pub open spec fn trees_of(members: Seq<(Seq<char>, Tree)>) -> Seq<Tree> {
    Seq::new(members.len(), |i: int| members[i].1)
}

proof fn lemma_items_zero(g: Seq<Node>, node: Node, items: Seq<Tree>, i: int, c: usize)
    requires
        0 <= i <= items.len(),
        forall|q: int| i <= q < items.len() ==> occurs(g, node->Array_0[q], #[trigger] items[q], c)
            == 0,
    ensures
        occurs_items(g, node, items, i, c) == 0,
    decreases items.len() - i,
{
    if i < items.len() {
        lemma_items_zero(g, node, items, i + 1, c);
    }
}

proof fn lemma_members_zero(
    g: Seq<Node>,
    node: Node,
    members: Seq<(Seq<char>, Tree)>,
    i: int,
    c: usize,
)
    requires
        0 <= i <= members.len(),
        forall|q: int|
            i <= q < members.len() ==> occurs(g, node->Object_0[q].1, (#[trigger] members[q]).1, c)
                == 0,
    ensures
        occurs_members(g, node, members, i, c) == 0,
    decreases members.len() - i,
{
    if i < members.len() {
        lemma_members_zero(g, node, members, i + 1, c);
    }
}

proof fn lemma_items_sum(
    g: Seq<Node>,
    node: Node,
    items: Seq<Tree>,
    floors: Map<usize, int>,
    i: int,
    c: usize,
)
    requires
        node is Array,
        0 <= i <= items.len(),
        apart(g, node->Array_0, items, floors, i),
    ensures
        occurs_items(g, node, items, i, c) <= 1,
        occurs_items(g, node, items, i, c) >= 1 ==> exists|q: int|
            i <= q < items.len() && occurs(g, node->Array_0[q], #[trigger] items[q], c) >= 1,
    decreases items.len() - i,
{
    let hs = node->Array_0;
    if i < items.len() {
        lemma_items_sum(g, node, items, floors, i + 1, c);
        assert(occurs(g, hs[i], items[i], c) <= 1);
        if occurs(g, hs[i], items[i], c) >= 1 {
            assert forall|q: int| i + 1 <= q < items.len() implies occurs(
                g,
                hs[q],
                #[trigger] items[q],
                c,
            ) == 0 by {
                assert(hs[q] != hs[i]);
                assert(occurs(g, hs[q], items[q], c) <= 1);
            }
            lemma_items_zero(g, node, items, i + 1, c);
        }
    }
}

proof fn lemma_members_sum(
    g: Seq<Node>,
    node: Node,
    members: Seq<(Seq<char>, Tree)>,
    floors: Map<usize, int>,
    i: int,
    c: usize,
)
    requires
        node is Object,
        0 <= i <= members.len(),
        apart(g, handles_of(node->Object_0), trees_of(members), floors, i),
    ensures
        occurs_members(g, node, members, i, c) <= 1,
        occurs_members(g, node, members, i, c) >= 1 ==> exists|q: int|
            i <= q < members.len() && occurs(g, node->Object_0[q].1, (#[trigger] members[q]).1, c)
                >= 1,
    decreases members.len() - i,
{
    let hs = handles_of(node->Object_0);
    let ts = trees_of(members);
    if i < members.len() {
        lemma_members_sum(g, node, members, floors, i + 1, c);
        assert(hs[i] == node->Object_0[i].1 && ts[i] == members[i].1);
        assert(occurs(g, hs[i], ts[i], c) <= 1);
        if occurs(g, hs[i], ts[i], c) >= 1 {
            assert forall|q: int| i + 1 <= q < members.len() implies occurs(
                g,
                node->Object_0[q].1,
                (#[trigger] members[q]).1,
                c,
            ) == 0 by {
                assert(hs[q] == node->Object_0[q].1 && ts[q] == members[q].1);
                assert(hs[q] != hs[i]);
                assert(occurs(g, hs[q], ts[q], c) <= 1);
            }
            lemma_members_zero(g, node, members, i + 1, c);
        }
    }
}

/// An array whose elements are each seen alone, each in a stretch of its
/// own before the array, is seen alone.
pub proof fn lemma_lone_array(
    g: Seq<Node>,
    r: usize,
    items: Seq<Tree>,
    floors: Map<usize, int>,
    lo: int,
)
    requires
        r < g.len(),
        g[r as int] is Array,
        apart(g, g[r as int]->Array_0, items, floors, 0),
        forall|q: int|
            0 <= q < items.len() ==> lo <= floors[#[trigger] g[r as int]->Array_0[q]]
                && g[r as int]->Array_0[q] < r,
        lo <= r,
    ensures
        lone(g, r, Tree::Array(items), lo),
{
    let node = g[r as int];
    let hs = node->Array_0;
    let t = Tree::Array(items);
    assert forall|c: usize| #[trigger]
        occurs(g, r, t, c) <= 1 && (occurs(g, r, t, c) >= 1 ==> lo <= c <= r) by {
        lemma_items_sum(g, node, items, floors, 0, c);
        if occurs_items(g, node, items, 0, c) >= 1 {
            let q = choose|q: int|
                0 <= q < items.len() && occurs(g, hs[q], #[trigger] items[q], c) >= 1;
            assert(floors[hs[q]] <= c <= hs[q]);
        }
    }
}

/// An object whose members are each seen alone, each in a stretch of its
/// own before the object, is seen alone.
pub proof fn lemma_lone_object(
    g: Seq<Node>,
    r: usize,
    members: Seq<(Seq<char>, Tree)>,
    floors: Map<usize, int>,
    lo: int,
)
    requires
        r < g.len(),
        g[r as int] is Object,
        g[r as int]->Object_0.len() == members.len(),
        forall|q: int|
            0 <= q < members.len() ==> (#[trigger] g[r as int]->Object_0[q]).0 == members[q].0,
        apart(g, handles_of(g[r as int]->Object_0), trees_of(members), floors, 0),
        forall|q: int|
            0 <= q < members.len() ==> lo <= floors[(#[trigger] g[r as int]->Object_0[q]).1]
                && g[r as int]->Object_0[q].1 < r,
        lo <= r,
    ensures
        lone(g, r, Tree::Object(members), lo),
{
    let node = g[r as int];
    let held = node->Object_0;
    let hs = handles_of(held);
    let ts = trees_of(members);
    let t = Tree::Object(members);
    assert forall|i: int| 0 <= i < members.len() implies held[i].0 == (#[trigger] members[i]).0
        && represents(g, held[i].1, members[i].1) by {
        assert(hs[i] == held[i].1 && ts[i] == members[i].1);
        assert(lone(g, hs[i], ts[i], floors[hs[i]]));
    }
    assert forall|c: usize| #[trigger]
        occurs(g, r, t, c) <= 1 && (occurs(g, r, t, c) >= 1 ==> lo <= c <= r) by {
        lemma_members_sum(g, node, members, floors, 0, c);
        if occurs_members(g, node, members, 0, c) >= 1 {
            let q = choose|q: int|
                0 <= q < members.len() && occurs(g, held[q].1, (#[trigger] members[q]).1, c) >= 1;
            assert(hs[q] == held[q].1 && ts[q] == members[q].1);
            assert(lone(g, hs[q], ts[q], floors[hs[q]]));
            assert(floors[held[q].1] <= c <= held[q].1);
        }
    }
}

} // verus!
