//! What a decoding makes of the output of an encoding: every node of the
//! graph that comes back stands for a node of the graph that was encoded,
//! and holds children that stand for that node's children.

use vstd::prelude::*;
use crate::deflate::{encode_run, encoding_start, tidy};
use crate::graph::Graph;
use crate::inflate::{all_owned, decoding_start, inflate_spec};
use crate::numbering::{id_of, lemma_ids_follow_second_visits};
use crate::sharing::{lemma_deflate_booked, stage};
use crate::error::CodecError;
use crate::graph::{attach, child, child_count, unfold, Node, Slot};
use crate::inflate::{
    is_marker, marker_value, open_node, place, place_items, place_members, ref_id, Decoding,
    RefEntry,
};
use crate::keys::{
    escaped, lemma_escape_inverse, lemma_put_sorted, marker_key, put, sorted, unescaped,
};
use crate::members::{has_key, holds, lemma_put_holds, lemma_sorted_distinct, lemma_sorted_same};
use crate::number::{number_i64, number_of_i64};
use crate::numbering::is_container;
use crate::sharing::{
    enc, id_at, kept, lemma_escaped_keys, marker_part, member_of, placeholder_at, proxied,
    proxy_at, seen_at, Book, Stage,
};
use crate::tree::Tree;

verus! {

/// A finished encoding with its account: the graph, the output and the
/// identity table, the account, and the containers in the order of their ids.
pub struct Scene {
    pub g: Seq<Node>,
    pub s: Stage,
    pub book: Book,
    pub order: Seq<usize>,
}

/// Integers that are written as numbers are read back as the same integers.
pub open spec fn numbers_read_back() -> bool {
    forall|i: i64| number_i64(#[trigger] number_of_i64(i)) == Some(i)
}

/// No array without an id begins with what reads as a marker.
pub open spec fn arrays_begin_plainly(g: Seq<Node>, s: Stage) -> bool {
    forall|c: usize|
        seen_at(s, c) && g[c as int] is Array && id_at(s, c) is None && child_count(g[c as int])
            > 0 ==> !is_marker(unfold(s.out, (#[trigger] s.out[proxy_at(s, c) as int])->Array_0[0]))
}

/// The encoding is finished and its account is true: every container that
/// was visited has a handle for each child, and the ids are the places in
/// `order`, counted from one.
pub open spec fn scene_ok(sc: Scene) -> bool {
    &&& kept(sc.g, sc.s, sc.book)
    &&& tidy(sc.s.out)
    &&& forall|c: usize| #[trigger]
        seen_at(sc.s, c) ==> sc.book.handles[c].len() == child_count(sc.g[c as int])
    &&& forall|c: usize| #[trigger]
        seen_at(sc.s, c) && id_at(sc.s, c) is Some ==> 1 <= id_at(sc.s, c)->0 <= sc.order.len()
            && sc.order[id_at(sc.s, c)->0 - 1] == c
    &&& forall|k: int|
        0 <= k < sc.order.len() ==> seen_at(sc.s, #[trigger] sc.order[k]) && id_at(
            sc.s,
            sc.order[k],
        ) == Some((k + 1) as i32)
    &&& sc.order.len() <= i32::MAX
    &&& numbers_read_back()
    &&& arrays_begin_plainly(sc.g, sc.s)
}

/// The document at a handle of the output.
pub open spec fn doc(sc: Scene, e: usize) -> Tree {
    unfold(sc.s.out, e)
}

/// The document at a reference placeholder is a bare marker of its id.
pub proof fn lemma_doc_placeholder(sc: Scene, e: usize, k: i32)
    requires
        scene_ok(sc),
        placeholder_at(sc.s.out, e, k),
        1 <= k,
    ensures
        is_marker(doc(sc, e)),
        ref_id(doc(sc, e)->Object_0[0].1) == Some(k),
{
    let out = sc.s.out;
    assert(out[e as int]->Object_0[0] == (marker_key(), (e + 1) as usize));
    assert(child(out[e as int], 0) == (e + 1) as usize);
    let entries = doc(sc, e)->Object_0;
    assert(entries[0] == (marker_key(), unfold(out, (e + 1) as usize)));
    assert(number_i64(number_of_i64(k as i64)) == Some(k as i64));
}

/// The document at the proxy of an array: the marker, where the array has
/// an id, and then the documents at the handles of its children.
pub proof fn lemma_doc_array(sc: Scene, c: usize)
    requires
        scene_ok(sc),
        seen_at(sc.s, c),
        sc.g[c as int] is Array,
    ensures
        ({
            let q = proxy_at(sc.s, c);
            let hs = sc.book.handles[c];
            let off = marker_part(sc.s, sc.book, c).len();
            let items = doc(sc, q)->Array_0;
            &&& doc(sc, q) is Array
            &&& items.len() == off + hs.len()
            &&& forall|i: int| 0 <= i < hs.len() ==> #[trigger] items[off + i] == doc(sc, hs[i]) && q
                < hs[i]
            &&& id_at(sc.s, c) is Some ==> is_marker(items[0]) && ref_id(items[0]->Object_0[0].1)
                == id_at(sc.s, c)
        }),
{
    let q = proxy_at(sc.s, c);
    let hs = sc.book.handles[c];
    let out = sc.s.out;
    assert(proxied(sc.g, sc.s, sc.book, c));
    let mp = marker_part(sc.s, sc.book, c);
    let kids = mp + hs;
    let off = mp.len();
    let items = doc(sc, q)->Array_0;
    assert forall|i: int| 0 <= i < kids.len() implies q < (#[trigger] kids[i]) < out.len() by {
        assert(kids[i] == child(out[q as int], i));
    }
    assert forall|i: int| 0 <= i < hs.len() implies #[trigger] items[off + i] == doc(sc, hs[i]) && q
        < hs[i] by {
        assert(kids[off + i] == hs[i]);
    }
    if id_at(sc.s, c) is Some {
        let m = sc.book.marks[c];
        assert(kids[0] == m);
        lemma_doc_placeholder(sc, m, id_at(sc.s, c)->0);
    }
}

/// The document at the proxy of an object: for each member of the proxy,
/// its key and the document at its handle.
pub proof fn lemma_doc_object(sc: Scene, c: usize)
    requires
        scene_ok(sc),
        seen_at(sc.s, c),
        sc.g[c as int] is Object,
    ensures
        ({
            let q = proxy_at(sc.s, c);
            let held = sc.s.out[q as int]->Object_0;
            let entries = doc(sc, q)->Object_0;
            &&& doc(sc, q) is Object
            &&& sc.s.out[q as int] is Object
            &&& sorted(held)
            &&& entries.len() == held.len()
            &&& forall|j: int|
                0 <= j < held.len() ==> #[trigger] entries[j] == (held[j].0, doc(sc, held[j].1))
                    && q < held[j].1 < sc.s.out.len()
        }),
{
    let q = proxy_at(sc.s, c);
    let out = sc.s.out;
    assert(proxied(sc.g, sc.s, sc.book, c));
    let held = out[q as int]->Object_0;
    assert forall|j: int| 0 <= j < held.len() implies q < (#[trigger] held[j]).1 < out.len() by {
        assert(held[j].1 == child(out[q as int], j));
    }
}

/// The account of a decoding under way.
pub struct Ledger {
    /// For each node of the graph that is being built, the node of the
    /// encoded graph that it stands for.
    pub stands: Map<usize, usize>,
    /// The nodes that are finished: all their children are linked in.
    pub done: Set<usize>,
    /// The containers whose children are being read.
    pub busy: Set<usize>,
}

/// The node `n` holds what the node it stands for holds: the same leaf, or
/// as many children, under the same keys, each standing for the child at
/// its place.
pub open spec fn shaped(g: Seq<Node>, nodes: Seq<Node>, stands: Map<usize, usize>, n: usize) -> bool {
    let x = stands[n];
    &&& n < nodes.len()
    &&& x < g.len()
    &&& match g[x as int] {
        Node::Array(kids) => nodes[n as int] is Array && nodes[n as int]->Array_0.len()
            == kids.len() && forall|i: int|
            0 <= i < kids.len() ==> stands.contains_key(#[trigger] nodes[n as int]->Array_0[i])
                && stands[nodes[n as int]->Array_0[i]] == kids[i],
        Node::Object(members) => nodes[n as int] is Object && nodes[n as int]->Object_0.len()
            == members.len() && forall|i: int|
            0 <= i < members.len() ==> (#[trigger] nodes[n as int]->Object_0[i]).0 == members[i].0
                && stands.contains_key(nodes[n as int]->Object_0[i].1)
                && stands[nodes[n as int]->Object_0[i].1] == members[i].1,
        _ => nodes[n as int] == g[x as int],
    }
}

/// The account is true of the state of the decoding.
pub open spec fn ledger_ok(sc: Scene, st: Decoding, l: Ledger) -> bool {
    &&& st.nodes.len() <= usize::MAX
    &&& forall|n: usize| #[trigger]
        l.stands.contains_key(n) ==> n < st.nodes.len() && l.stands[n] < sc.g.len() && (
        is_container(sc.g, l.stands[n]) ==> seen_at(sc.s, l.stands[n]))
    &&& forall|k: i32| #[trigger]
        st.refs.contains_key(k) ==> 1 <= k <= sc.order.len() && l.stands.contains_key(
            st.refs[k].node,
        ) && l.stands[st.refs[k].node] == sc.order[k - 1]
    &&& forall|n: usize| #[trigger]
        l.stands.contains_key(n) && is_container(sc.g, l.stands[n]) && id_at(sc.s, l.stands[n])
            is Some ==> st.refs.contains_key(id_at(sc.s, l.stands[n])->0) && st.refs[id_at(
            sc.s,
            l.stands[n],
        )->0].node == n
    &&& forall|k: i32| #[trigger]
        st.refs.contains_key(k) && !st.refs[k].owned ==> st.nodes[st.refs[k].node as int]
            == Node::Object(Seq::empty()) && !l.done.contains(st.refs[k].node)
            && !l.busy.contains(st.refs[k].node)
    &&& forall|n: usize| #[trigger]
        l.done.contains(n) ==> l.stands.contains_key(n) && shaped(sc.g, st.nodes, l.stands, n)
    &&& forall|k: i32| #[trigger]
        st.refs.contains_key(k) && st.refs[k].owned ==> l.done.contains(st.refs[k].node)
            || l.busy.contains(st.refs[k].node)
    &&& forall|n: usize| #[trigger]
        l.stands.contains_key(n) && !l.done.contains(n) && !l.busy.contains(n) ==> is_container(
            sc.g,
            l.stands[n],
        ) && id_at(sc.s, l.stands[n]) is Some
    &&& forall|n: usize| #[trigger]
        l.busy.contains(n) ==> l.stands.contains_key(n) && !l.done.contains(n)
}

/// How a later state and its account go on from an earlier one.
pub open spec fn carried(st: Decoding, l: Ledger, st1: Decoding, l1: Ledger) -> bool {
    &&& st.nodes.len() <= st1.nodes.len()
    &&& forall|n: usize| #[trigger]
        l.stands.contains_key(n) ==> l1.stands.contains_key(n) && l1.stands[n] == l.stands[n]
    &&& forall|n: usize| #[trigger]
        l1.stands.contains_key(n) && !l.stands.contains_key(n) ==> n >= st.nodes.len()
    &&& forall|n: usize| #[trigger]
        l.done.contains(n) ==> l1.done.contains(n) && st1.nodes[n as int] == st.nodes[n as int]
    &&& forall|k: i32| #[trigger]
        st.refs.contains_key(k) ==> st1.refs.contains_key(k) && st1.refs[k].node
            == st.refs[k].node && (st.refs[k].owned ==> st1.refs[k].owned)
}

/// Going on from a state that went on from another is going on from that one.
pub proof fn lemma_carried_trans(
    st: Decoding,
    l: Ledger,
    st1: Decoding,
    l1: Ledger,
    st2: Decoding,
    l2: Ledger,
)
    requires
        carried(st, l, st1, l1),
        carried(st1, l1, st2, l2),
    ensures
        carried(st, l, st2, l2),
{
    assert forall|n: usize| #[trigger] l.stands.contains_key(n) implies l2.stands.contains_key(n)
        && l2.stands[n] == l.stands[n] by {
        assert(l1.stands.contains_key(n));
    }
    assert forall|n: usize| #[trigger]
        l2.stands.contains_key(n) && !l.stands.contains_key(n) implies n >= st.nodes.len() by {
        if l1.stands.contains_key(n) {
        }
    }
    assert forall|n: usize| #[trigger] l.done.contains(n) implies l2.done.contains(n)
        && st2.nodes[n as int] == st.nodes[n as int] by {
        assert(l1.done.contains(n));
    }
    assert forall|k: i32| #[trigger] st.refs.contains_key(k) implies st2.refs.contains_key(k)
        && st2.refs[k].node == st.refs[k].node && (st.refs[k].owned ==> st2.refs[k].owned) by {
        assert(st1.refs.contains_key(k));
    }
}

/// The node that a slot links into, if any.
pub open spec fn parent_of(slot: Slot) -> Option<usize> {
    match slot {
        Slot::Root => None,
        Slot::Elem(p) => Some(p),
        Slot::Member(p, _) => Some(p),
    }
}

/// The node after `h` is linked into it at the slot.
pub open spec fn linked(node: Node, slot: Slot, h: usize) -> Node {
    match slot {
        Slot::Root => node,
        Slot::Elem(_) => if node is Array {
            Node::Array(node->Array_0.push(h))
        } else {
            node
        },
        Slot::Member(_, key) => if node is Object {
            Node::Object(put(node->Object_0, key, h))
        } else {
            node
        },
    }
}

/// The slot links into a container whose children are being read.
pub open spec fn slot_busy(slot: Slot, l: Ledger) -> bool {
    parent_of(slot) matches Some(p) ==> l.busy.contains(p)
}

/// The containers being read hold what they held, but for the parent of
/// the slot, which has `h` linked in.
pub open spec fn busy_kept(st: Decoding, l: Ledger, st1: Decoding, slot: Slot, h: usize) -> bool {
    forall|n: usize| #[trigger]
        l.busy.contains(n) ==> st1.nodes[n as int] == if parent_of(slot) == Some(n) {
            linked(st.nodes[n as int], slot, h)
        } else {
            st.nodes[n as int]
        }
}

proof fn lemma_attach_at(nodes: Seq<Node>, slot: Slot, h: usize)
    ensures
        attach(nodes, slot, h).len() == nodes.len(),
        forall|n: usize|
            n < nodes.len() ==> #[trigger] attach(nodes, slot, h)[n as int] == if parent_of(slot)
                == Some(n) {
                linked(nodes[n as int], slot, h)
            } else {
                nodes[n as int]
            },
{
}

/// A node that is shaped stays so while it stays as it is and the account
/// only grows.
proof fn lemma_shaped_kept(
    g: Seq<Node>,
    nodes: Seq<Node>,
    stands: Map<usize, usize>,
    nodes1: Seq<Node>,
    stands1: Map<usize, usize>,
    n: usize,
)
    requires
        stands.contains_key(n),
        shaped(g, nodes, stands, n),
        nodes.len() <= nodes1.len(),
        nodes1[n as int] == nodes[n as int],
        forall|m: usize| #[trigger]
            stands.contains_key(m) ==> stands1.contains_key(m) && stands1[m] == stands[m],
    ensures
        shaped(g, nodes1, stands1, n),
{
    let x = stands[n];
    match g[x as int] {
        Node::Array(kids) => {
            assert forall|i: int| 0 <= i < kids.len() implies stands1.contains_key(
                #[trigger] nodes1[n as int]->Array_0[i],
            ) && stands1[nodes1[n as int]->Array_0[i]] == kids[i] by {
                assert(stands.contains_key(nodes[n as int]->Array_0[i]));
            }
        },
        Node::Object(members) => {
            assert forall|i: int| 0 <= i < members.len() implies (
            #[trigger] nodes1[n as int]->Object_0[i]).0 == members[i].0 && stands1.contains_key(
                nodes1[n as int]->Object_0[i].1,
            ) && stands1[nodes1[n as int]->Object_0[i].1] == members[i].1 by {
                assert(stands.contains_key(nodes[n as int]->Object_0[i].1));
            }
        },
        _ => {},
    }
}

/// The ids of two containers are the same only where the containers are.
proof fn lemma_ids_differ(sc: Scene, a: i32, b: i32)
    requires
        scene_ok(sc),
        1 <= a <= sc.order.len(),
        1 <= b <= sc.order.len(),
        sc.order[a - 1] == sc.order[b - 1],
    ensures
        a == b,
{
    assert(id_at(sc.s, sc.order[a - 1]) == Some(a));
    assert(id_at(sc.s, sc.order[b - 1]) == Some(b));
}

/// The account after a node of the document is opened and linked in.
///
/// The node that is opened, `tgt`, stands for `x`. It is a fresh node
/// without children, or the node registered for the id of `x`. `mode` says
/// what it is from now on: 1, a finished leaf; 2, a container whose
/// children are read next; 0, a reference, which reads no children.
proof fn lemma_opened(
    sc: Scene,
    st: Decoding,
    l: Ledger,
    slot: Slot,
    x: usize,
    tgt: usize,
    nodes1: Seq<Node>,
    refs1: Map<i32, RefEntry>,
    mode: int,
) -> (l1: Ledger)
    requires
        scene_ok(sc),
        ledger_ok(sc, st, l),
        slot_busy(slot, l),
        x < sc.g.len(),
        is_container(sc.g, x) ==> seen_at(sc.s, x),
        nodes1.len() <= usize::MAX,
        nodes1 == st.nodes || (tgt == st.nodes.len() && nodes1 == st.nodes.push(nodes1[tgt as int])
            && child_count(nodes1[tgt as int]) == 0),
        nodes1 == st.nodes ==> l.stands.contains_key(tgt) && l.stands[tgt] == x,
        forall|k: i32| #[trigger]
            st.refs.contains_key(k) ==> refs1.contains_key(k) && refs1[k].node == st.refs[k].node
                && (st.refs[k].owned ==> refs1[k].owned),
        forall|k: i32| #[trigger]
            refs1.contains_key(k) && !(st.refs.contains_key(k) && st.refs[k] == refs1[k])
                ==> is_container(sc.g, x) && id_at(sc.s, x) == Some(k) && refs1[k].node == tgt,
        is_container(sc.g, x) && id_at(sc.s, x) is Some ==> refs1.contains_key(id_at(sc.s, x)->0)
            && refs1[id_at(sc.s, x)->0].node == tgt,
        mode == 0 || mode == 1 || mode == 2,
        mode == 1 ==> !is_container(sc.g, x) && nodes1 != st.nodes && nodes1[tgt as int]
            == sc.g[x as int],
        mode == 2 ==> is_container(sc.g, x) && !l.done.contains(tgt) && (id_at(sc.s, x) is Some
            ==> refs1[id_at(sc.s, x)->0].owned),
        mode == 0 ==> is_container(sc.g, x) && id_at(sc.s, x) is Some && (refs1[id_at(
            sc.s,
            x,
        )->0].owned ==> nodes1 == st.nodes && st.refs[id_at(sc.s, x)->0].owned) && (!refs1[id_at(
            sc.s,
            x,
        )->0].owned ==> nodes1[tgt as int] == Node::Object(Seq::empty()) && !l.done.contains(tgt)
            && !l.busy.contains(tgt)),
    ensures
        ledger_ok(sc, Decoding { nodes: attach(nodes1, slot, tgt), refs: refs1 }, l1),
        l1.stands == l.stands.insert(tgt, x),
        l1.done == if mode == 1 {
            l.done.insert(tgt)
        } else {
            l.done
        },
        l1.busy == if mode == 2 {
            l.busy.insert(tgt)
        } else {
            l.busy
        },
        carried(st, l, Decoding { nodes: attach(nodes1, slot, tgt), refs: refs1 }, l1),
        busy_kept(st, l, Decoding { nodes: attach(nodes1, slot, tgt), refs: refs1 }, slot, tgt),
        mode == 2 ==> attach(nodes1, slot, tgt)[tgt as int] == if parent_of(slot) == Some(tgt) {
            linked(nodes1[tgt as int], slot, tgt)
        } else {
            nodes1[tgt as int]
        },
{
    let l1 = Ledger {
        stands: l.stands.insert(tgt, x),
        done: if mode == 1 {
            l.done.insert(tgt)
        } else {
            l.done
        },
        busy: if mode == 2 {
            l.busy.insert(tgt)
        } else {
            l.busy
        },
    };
    let fresh = nodes1 != st.nodes;
    let nodes2 = attach(nodes1, slot, tgt);
    let st1 = Decoding { nodes: nodes2, refs: refs1 };
    lemma_attach_at(nodes1, slot, tgt);
    let id = id_at(sc.s, x);
    // the parent of the slot is an older node that is being read
    if parent_of(slot) is Some {
        let p = parent_of(slot)->0;
        assert(l.busy.contains(p));
        assert(l.stands.contains_key(p));
    }
    assert forall|n: usize| #[trigger] l1.stands.contains_key(n) implies n < st1.nodes.len()
        && l1.stands[n] < sc.g.len() && (is_container(sc.g, l1.stands[n]) ==> seen_at(
        sc.s,
        l1.stands[n],
    )) by {
        if n != tgt {
            assert(l.stands.contains_key(n));
        }
    }
    assert forall|k: i32| #[trigger] st1.refs.contains_key(k) implies 1 <= k <= sc.order.len()
        && l1.stands.contains_key(st1.refs[k].node) && l1.stands[st1.refs[k].node] == sc.order[k
        - 1] by {
        if st.refs.contains_key(k) && st.refs[k] == refs1[k] {
            assert(l.stands.contains_key(st.refs[k].node));
        } else {
            assert(id == Some(k));
        }
    }
    assert forall|n: usize| #[trigger]
        l1.stands.contains_key(n) && is_container(sc.g, l1.stands[n]) && id_at(sc.s, l1.stands[n])
            is Some implies st1.refs.contains_key(id_at(sc.s, l1.stands[n])->0)
        && st1.refs[id_at(sc.s, l1.stands[n])->0].node == n by {
        if n != tgt {
            assert(l.stands.contains_key(n));
            let k = id_at(sc.s, l.stands[n])->0;
            assert(st.refs.contains_key(k));
        }
    }
    assert forall|k: i32| #[trigger] st1.refs.contains_key(k) && !st1.refs[k].owned implies
        st1.nodes[st1.refs[k].node as int] == Node::Object(Seq::empty()) && !l1.done.contains(
        st1.refs[k].node,
    ) && !l1.busy.contains(st1.refs[k].node) by {
        let n = st1.refs[k].node;
        if st.refs.contains_key(k) && st.refs[k] == refs1[k] {
            assert(!st.refs[k].owned);
            assert(l.stands.contains_key(n));
            if n == tgt {
                // the same node is registered for the id of x
                assert(!fresh);
                if is_container(sc.g, x) && id is Some {
                    lemma_ids_differ(sc, k, id->0);
                } else {
                    assert(l.stands[n] == sc.order[k - 1]);
                    assert(seen_at(sc.s, sc.order[k - 1]));
                    assert(sc.g[x as int] is Array || sc.g[x as int] is Object) by {
                        assert(proxied(sc.g, sc.s, sc.book, x));
                    }
                }
            }
        } else {
            assert(id == Some(k));
        }
    }
    assert forall|n: usize| #[trigger] l1.done.contains(n) implies l1.stands.contains_key(n)
        && shaped(sc.g, st1.nodes, l1.stands, n) by {
        if l.done.contains(n) {
            assert(l.stands.contains_key(n));
            if n == tgt {
                assert(!fresh);
            }
            lemma_shaped_kept(sc.g, st.nodes, l.stands, st1.nodes, l1.stands, n);
        } else {
            assert(n == tgt && mode == 1);
        }
    }
    assert forall|k: i32| #[trigger] st1.refs.contains_key(k) && st1.refs[k].owned implies
        l1.done.contains(st1.refs[k].node) || l1.busy.contains(st1.refs[k].node) by {
        if st.refs.contains_key(k) && st.refs[k] == refs1[k] {
        } else {
            assert(id == Some(k));
        }
    }
    assert forall|n: usize| #[trigger]
        l1.stands.contains_key(n) && !l1.done.contains(n) && !l1.busy.contains(n) implies
        is_container(sc.g, l1.stands[n]) && id_at(sc.s, l1.stands[n]) is Some by {
        if n != tgt {
            assert(l.stands.contains_key(n));
        } else if !fresh {
            assert(l.stands.contains_key(n));
        }
    }
    assert forall|n: usize| #[trigger] l1.busy.contains(n) implies l1.stands.contains_key(n)
        && !l1.done.contains(n) by {
        if l.busy.contains(n) {
            if n == tgt && mode == 1 {
                assert(l.stands.contains_key(n));
            }
        }
    }
    assert(carried(st, l, st1, l1)) by {
        assert forall|n: usize| #[trigger] l.done.contains(n) implies l1.done.contains(n)
            && st1.nodes[n as int] == st.nodes[n as int] by {
            assert(l.stands.contains_key(n));
        }
    }
    assert(busy_kept(st, l, st1, slot, tgt)) by {
        assert forall|n: usize| #[trigger] l.busy.contains(n) implies st1.nodes[n as int]
            == if parent_of(slot) == Some(n) {
            linked(st.nodes[n as int], slot, tgt)
        } else {
            st.nodes[n as int]
        } by {
            assert(l.stands.contains_key(n));
        }
    }
    l1
}

/// Reading a document adds nodes and takes none away.
pub proof fn lemma_place_len(t: Tree, slot: Slot, st: Decoding)
    requires
        place(t, slot, st) is Ok,
    ensures
        st.nodes.len() <= place(t, slot, st)->Ok_0.nodes.len(),
    decreases t, 0nat,
{
    let o = open_node(t, st)->Ok_0;
    let st1 = Decoding { nodes: attach(o.state.nodes, slot, o.node), refs: o.state.refs };
    match o.fill {
        None => {},
        Some(start) => match t {
            Tree::Array(items) => {
                lemma_place_items_len(items, start as int, o.node, st1);
            },
            Tree::Object(members) => {
                lemma_place_members_len(members, 0, o.node, st1);
            },
            _ => {},
        },
    }
}

/// Reading elements adds nodes and takes none away.
pub proof fn lemma_place_items_len(items: Seq<Tree>, i: int, parent: usize, st: Decoding)
    requires
        place_items(items, i, parent, st) is Ok,
    ensures
        st.nodes.len() <= place_items(items, i, parent, st)->Ok_0.nodes.len(),
    decreases items, items.len() - i,
{
    if 0 <= i < items.len() {
        lemma_place_len(items[i], Slot::Elem(parent), st);
        lemma_place_items_len(
            items,
            i + 1,
            parent,
            place(items[i], Slot::Elem(parent), st)->Ok_0,
        );
    }
}

/// Reading members adds nodes and takes none away.
pub proof fn lemma_place_members_len(
    members: Seq<(Seq<char>, Tree)>,
    i: int,
    parent: usize,
    st: Decoding,
)
    requires
        place_members(members, i, parent, st) is Ok,
    ensures
        st.nodes.len() <= place_members(members, i, parent, st)->Ok_0.nodes.len(),
    decreases members, members.len() - i,
{
    if 0 <= i < members.len() {
        if members[i].0 == marker_key() {
            lemma_place_members_len(members, i + 1, parent, st);
        } else {
            let slot = Slot::Member(parent, unescaped(members[i].0));
            lemma_place_len(members[i].1, slot, st);
            lemma_place_members_len(members, i + 1, parent, place(members[i].1, slot, st)->Ok_0);
        }
    }
}

/// Where the members from `i` on hold the marker key at `at` first, the
/// marker's value is the value there.
proof fn lemma_marker_found(members: Seq<(Seq<char>, Tree)>, i: int, at: int)
    requires
        0 <= i <= at < members.len(),
        members[at].0 == marker_key(),
        forall|j: int| i <= j < at ==> (#[trigger] members[j]).0 != marker_key(),
    ensures
        marker_value(members, i) == Some(members[at].1),
    decreases at - i,
{
    if i < at {
        lemma_marker_found(members, i + 1, at);
    }
}

/// Where no member from `i` on is under the marker key, there is no
/// marker's value.
proof fn lemma_marker_absent(members: Seq<(Seq<char>, Tree)>, i: int)
    requires
        0 <= i <= members.len(),
        forall|j: int| i <= j < members.len() ==> (#[trigger] members[j]).0 != marker_key(),
    ensures
        marker_value(members, i) is None,
    decreases members.len() - i,
{
    if i < members.len() {
        lemma_marker_absent(members, i + 1);
    }
}

/// The member of the key and the handle stands under that key for a child
/// of the object of the graph.
pub open spec fn under(
    members: Seq<(Seq<char>, usize)>,
    stands: Map<usize, usize>,
    key: Seq<char>,
    h: usize,
) -> bool {
    exists|i: int|
        0 <= i < members.len() && key == (#[trigger] members[i]).0 && stands.contains_key(h)
            && stands[h] == members[i].1
}

/// Every member of the list stands for a child of the object.
pub open spec fn sound(
    members: Seq<(Seq<char>, usize)>,
    stands: Map<usize, usize>,
    cur: Seq<(Seq<char>, usize)>,
) -> bool {
    forall|j: int| 0 <= j < cur.len() ==> under(members, stands, (#[trigger] cur[j]).0, cur[j].1)
}

/// The keys of a member list, each with nothing.
spec fn keys_of(es: Seq<(Seq<char>, usize)>) -> Seq<(Seq<char>, ())> {
    Seq::new(es.len(), |i: int| (es[i].0, ()))
}

/// A canonical list whose members all stand for children of an object, and
/// which holds a member for each child, holds one member for each child,
/// in the order of the children.
proof fn lemma_members_shape(
    members: Seq<(Seq<char>, usize)>,
    stands: Map<usize, usize>,
    cur: Seq<(Seq<char>, usize)>,
)
    requires
        sorted(members),
        sorted(cur),
        sound(members, stands, cur),
        forall|i: int| 0 <= i < members.len() ==> has_key(cur, (#[trigger] members[i]).0),
    ensures
        cur.len() == members.len(),
        forall|i: int|
            0 <= i < members.len() ==> (#[trigger] cur[i]).0 == members[i].0
                && stands.contains_key(cur[i].1) && stands[cur[i].1] == members[i].1,
{
    let a = keys_of(cur);
    let b = keys_of(members);
    assert(sorted(a)) by {
        assert forall|i: int, j: int| 0 <= i < j < a.len() implies crate::keys::key_lt(
            #[trigger] a[i].0,
            #[trigger] a[j].0,
        ) by {
            assert(a[i].0 == cur[i].0 && a[j].0 == cur[j].0);
        }
    }
    assert(sorted(b)) by {
        assert forall|i: int, j: int| 0 <= i < j < b.len() implies crate::keys::key_lt(
            #[trigger] b[i].0,
            #[trigger] b[j].0,
        ) by {
            assert(b[i].0 == members[i].0 && b[j].0 == members[j].0);
        }
    }
    assert forall|i: int| 0 <= i < a.len() implies holds(b, (#[trigger] a[i]).0, a[i].1) by {
        assert(under(members, stands, cur[i].0, cur[i].1));
        let w = choose|w: int|
            0 <= w < members.len() && cur[i].0 == (#[trigger] members[w]).0
                && stands.contains_key(cur[i].1) && stands[cur[i].1] == members[w].1;
        assert(b[w] == (a[i].0, a[i].1));
    }
    assert forall|i: int| 0 <= i < b.len() implies holds(a, (#[trigger] b[i]).0, b[i].1) by {
        assert(has_key(cur, members[i].0));
        let w = choose|w: int| 0 <= w < cur.len() && (#[trigger] cur[w]).0 == members[i].0;
        assert(a[w] == (b[i].0, b[i].1));
    }
    lemma_sorted_same(a, b);
    assert(a.len() == cur.len());
    assert(b.len() == members.len());
    lemma_sorted_distinct(members);
    assert forall|i: int| 0 <= i < members.len() implies (#[trigger] cur[i]).0 == members[i].0
        && stands.contains_key(cur[i].1) && stands[cur[i].1] == members[i].1 by {
        assert(a[i] == b[i]);
        assert(a[i].0 == cur[i].0);
        assert(b[i].0 == members[i].0);
        assert(under(members, stands, cur[i].0, cur[i].1));
        let w = choose|w: int|
            0 <= w < members.len() && cur[i].0 == (#[trigger] members[w]).0
                && stands.contains_key(cur[i].1) && stands[cur[i].1] == members[w].1;
        if w < i {
            assert(members[w].0 != members[i].0);
        } else if i < w {
            assert(members[i].0 != members[w].0);
        }
    }
}

/// The account after a container whose children are all read is finished.
proof fn lemma_closed(sc: Scene, st: Decoding, l: Ledger, tgt: usize) -> (l1: Ledger)
    requires
        ledger_ok(sc, st, l),
        l.busy.contains(tgt),
        shaped(sc.g, st.nodes, l.stands, tgt),
    ensures
        l1 == (Ledger { stands: l.stands, done: l.done.insert(tgt), busy: l.busy.remove(tgt) }),
        ledger_ok(sc, st, l1),
        carried(st, l, st, l1),
{
    let l1 = Ledger { stands: l.stands, done: l.done.insert(tgt), busy: l.busy.remove(tgt) };
    assert forall|k: i32| #[trigger] st.refs.contains_key(k) && !st.refs[k].owned implies
        st.nodes[st.refs[k].node as int] == Node::Object(Seq::empty()) && !l1.done.contains(
        st.refs[k].node,
    ) && !l1.busy.contains(st.refs[k].node) by {}
    assert forall|n: usize| #[trigger] l1.done.contains(n) implies l1.stands.contains_key(n)
        && shaped(sc.g, st.nodes, l1.stands, n) by {
        if n != tgt {
            assert(l.done.contains(n));
        }
    }
    assert forall|n: usize| #[trigger]
        l1.stands.contains_key(n) && !l1.done.contains(n) && !l1.busy.contains(n) implies
        is_container(sc.g, l1.stands[n]) && id_at(sc.s, l1.stands[n]) is Some by {
        assert(l.stands.contains_key(n));
    }
    assert forall|n: usize| #[trigger] l1.busy.contains(n) implies l1.stands.contains_key(n)
        && !l1.done.contains(n) by {
        assert(l.busy.contains(n));
    }
    l1
}

/// What holds after the document at a handle is read into a slot.
pub open spec fn read_ok(
    sc: Scene,
    st: Decoding,
    l: Ledger,
    slot: Slot,
    st1: Decoding,
    l1: Ledger,
    h: usize,
    x: usize,
) -> bool {
    &&& ledger_ok(sc, st1, l1)
    &&& l1.busy == l.busy
    &&& carried(st, l, st1, l1)
    &&& busy_kept(st, l, st1, slot, h)
    &&& l1.stands.contains_key(h)
    &&& l1.stands[h] == x
}

/// What holds after the children of the container `tgt` are read.
pub open spec fn filled_ok(sc: Scene, st: Decoding, l: Ledger, tgt: usize, st1: Decoding, l1: Ledger) -> bool {
    &&& ledger_ok(sc, st1, l1)
    &&& l1.busy == l.busy
    &&& carried(st, l, st1, l1)
    &&& forall|n: usize| #[trigger]
        l.busy.contains(n) && n != tgt ==> st1.nodes[n as int] == st.nodes[n as int]
}

/// The document at a handle that stands for a leaf is the leaf.
proof fn lemma_doc_leaf(sc: Scene, e: usize, st: Decoding)
    requires
        e < sc.s.out.len(),
        !(sc.s.out[e as int] is Array || sc.s.out[e as int] is Object),
    ensures
        open_node(doc(sc, e), st) == Ok::<crate::inflate::Opening, CodecError>(
            crate::inflate::Opening {
                node: st.nodes.len() as usize,
                state: Decoding { nodes: st.nodes.push(sc.s.out[e as int]), refs: st.refs },
                fill: None,
            },
        ),
{
}

/// Reading the document at a handle that stands for the node `x` of the
/// encoded graph links in a node that stands for `x`, and keeps the
/// account true.
proof fn lemma_read(sc: Scene, e: usize, x: usize, slot: Slot, st: Decoding, l: Ledger) -> (r: (
    Ledger,
    usize,
))
    requires
        scene_ok(sc),
        enc(sc.g, sc.s, sc.book, e, x),
        ledger_ok(sc, st, l),
        slot_busy(slot, l),
        place(doc(sc, e), slot, st) is Ok,
        place(doc(sc, e), slot, st)->Ok_0.nodes.len() <= usize::MAX,
    ensures
        read_ok(sc, st, l, slot, place(doc(sc, e), slot, st)->Ok_0, r.0, r.1, x),
        r.1 == open_node(doc(sc, e), st)->Ok_0.node,
    decreases sc.s.out.len() - e, 1nat, 0nat,
{
    let t = doc(sc, e);
    let out = sc.s.out;
    let g = sc.g;
    let o = open_node(t, st)->Ok_0;
    let tgt = o.node;
    let fresh = st.nodes.len() as usize;
    let sta = Decoding { nodes: attach(o.state.nodes, slot, tgt), refs: o.state.refs };
    let st1 = place(t, slot, st)->Ok_0;
    match o.fill {
        None => {},
        Some(start) => match t {
            Tree::Array(items) => {
                lemma_place_items_len(items, start as int, tgt, sta);
            },
            Tree::Object(members) => {
                lemma_place_members_len(members, 0, tgt, sta);
            },
            _ => {},
        },
    }
    lemma_attach_at(o.state.nodes, slot, tgt);
    assert(sta.nodes.len() <= usize::MAX);
    if !is_container(g, x) {
        lemma_doc_leaf(sc, e, st);
        let l1 = lemma_opened(sc, st, l, slot, x, fresh, st.nodes.push(out[e as int]), st.refs, 1);
        assert(read_ok(sc, st, l, slot, st1, l1, fresh, x));
        (l1, fresh)
    } else {
        let id = id_at(sc.s, x);
        assert(seen_at(sc.s, x));
        assert(proxied(g, sc.s, sc.book, x));
        if is_marker(t) {
            // a reference: the placeholder of the id, or the proxy of an
            // object without members that has an id
            if e == proxy_at(sc.s, x) {
                lemma_marker_proxy(sc, x);
            } else {
                lemma_doc_placeholder(sc, e, id->0);
            }
            let k = id->0;
            assert(ref_id(t->Object_0[0].1) == Some(k));
            if st.refs.contains_key(k) {
                let l1 = lemma_opened(sc, st, l, slot, x, st.refs[k].node, st.nodes, st.refs, 0);
                assert(read_ok(sc, st, l, slot, st1, l1, tgt, x));
                (l1, tgt)
            } else {
                let l1 = lemma_opened(
                    sc,
                    st,
                    l,
                    slot,
                    x,
                    fresh,
                    st.nodes.push(Node::Object(Seq::empty())),
                    st.refs.insert(k, RefEntry { node: fresh, owned: false }),
                    0,
                );
                assert(read_ok(sc, st, l, slot, st1, l1, tgt, x));
                (l1, tgt)
            }
        } else {
            if e != proxy_at(sc.s, x) {
                lemma_doc_placeholder(sc, e, id->0);
            }
            assert(e == proxy_at(sc.s, x));
            match g[x as int] {
                Node::Array(kids) => {
                    lemma_doc_array(sc, x);
                    let items = t->Array_0;
                    let hs = sc.book.handles[x];
                    if id is Some {
                        let k = id->0;
                        if st.refs.contains_key(k) {
                            let l1 = lemma_opened(
                                sc,
                                st,
                                l,
                                slot,
                                x,
                                st.refs[k].node,
                                st.nodes,
                                st.refs,
                                0,
                            );
                            assert(read_ok(sc, st, l, slot, st1, l1, tgt, x));
                            (l1, tgt)
                        } else {
                            let la = lemma_opened(
                                sc,
                                st,
                                l,
                                slot,
                                x,
                                fresh,
                                st.nodes.push(Node::Array(Seq::empty())),
                                st.refs.insert(k, RefEntry { node: fresh, owned: true }),
                                2,
                            );
                            assert(!l.busy.contains(fresh)) by {
                                if l.busy.contains(fresh) {
                                    assert(l.stands.contains_key(fresh));
                                }
                            }
                            let lb = lemma_read_items(sc, x, fresh, 0, sta, la);
                            let l1 = lemma_closed(sc, st1, lb, fresh);
                            lemma_carried_trans(st, l, sta, la, st1, lb);
                            lemma_carried_trans(st, l, st1, lb, st1, l1);
                            assert(l1.busy =~= l.busy);
                            assert(tgt == fresh);
                            assert(la.stands.contains_key(fresh));
                            assert(lb.stands.contains_key(fresh) && lb.stands[fresh] == x);
                            assert(ledger_ok(sc, st1, l1));
                            assert(carried(st, l, st1, l1));
                            assert(busy_kept(st, l, st1, slot, tgt)) by {
                                assert forall|n: usize| #[trigger] l.busy.contains(n) implies
                                    st1.nodes[n as int] == if parent_of(slot) == Some(n) {
                                    linked(st.nodes[n as int], slot, tgt)
                                } else {
                                    st.nodes[n as int]
                                } by {
                                    assert(la.busy.contains(n));
                                    assert(n != fresh);
                                }
                            }
                            assert(read_ok(sc, st, l, slot, st1, l1, tgt, x));
                            (l1, tgt)
                        }
                    } else {
                        let off = marker_part(sc.s, sc.book, x).len() as int;
                        assert(off == 0);
                        if items.len() > 0 {
                            assert(out[e as int]->Array_0 =~= hs);
                            assert(items[off + 0] == doc(sc, hs[0]));
                        }
                        let la = lemma_opened(
                            sc,
                            st,
                            l,
                            slot,
                            x,
                            fresh,
                            st.nodes.push(Node::Array(Seq::empty())),
                            st.refs,
                            2,
                        );
                        assert(!l.busy.contains(fresh)) by {
                            if l.busy.contains(fresh) {
                                assert(l.stands.contains_key(fresh));
                            }
                        }
                        let lb = lemma_read_items(sc, x, fresh, 0, sta, la);
                        let l1 = lemma_closed(sc, st1, lb, fresh);
                        lemma_carried_trans(st, l, sta, la, st1, lb);
                        lemma_carried_trans(st, l, st1, lb, st1, l1);
                        assert(l1.busy =~= l.busy);
                        assert(tgt == fresh);
                        assert(la.stands.contains_key(fresh));
                        assert(lb.stands.contains_key(fresh) && lb.stands[fresh] == x);
                        assert(ledger_ok(sc, st1, l1));
                        assert(carried(st, l, st1, l1));
                        assert(busy_kept(st, l, st1, slot, tgt)) by {
                            assert forall|n: usize| #[trigger] l.busy.contains(n) implies
                                st1.nodes[n as int] == if parent_of(slot) == Some(n) {
                                linked(st.nodes[n as int], slot, tgt)
                            } else {
                                st.nodes[n as int]
                            } by {
                                assert(la.busy.contains(n));
                                assert(n != fresh);
                            }
                        }
                        assert(read_ok(sc, st, l, slot, st1, l1, tgt, x));
                        (l1, tgt)
                    }
                },
                Node::Object(members) => {
                    lemma_doc_object(sc, x);
                    lemma_marker_member(sc, x);
                    let entries = t->Object_0;
                    let (nodes1, refs1): (Seq<Node>, Map<i32, RefEntry>) = if id is Some {
                        let k = id->0;
                        if st.refs.contains_key(k) {
                            (st.nodes, st.refs.insert(k, RefEntry { node: st.refs[k].node, owned: true }))
                        } else {
                            (
                                st.nodes.push(Node::Object(Seq::empty())),
                                st.refs.insert(k, RefEntry { node: fresh, owned: true }),
                            )
                        }
                    } else {
                        (st.nodes.push(Node::Object(Seq::empty())), st.refs)
                    };
                    assert(o.state.nodes == nodes1);
                    assert(o.state.refs == refs1);
                    let la = lemma_opened(sc, st, l, slot, x, tgt, nodes1, refs1, 2);
                    assert(!l.busy.contains(tgt)) by {
                        if l.busy.contains(tgt) {
                            assert(l.stands.contains_key(tgt));
                        }
                    }
                    assert(sta.nodes[tgt as int] == Node::Object(Seq::empty()));
                    let lb = lemma_read_members(sc, x, tgt, 0, sta, la);
                    // every child has its member
                    let cur = st1.nodes[tgt as int]->Object_0;
                    let held = out[e as int]->Object_0;
                    let hs = sc.book.handles[x];
                    assert forall|i: int| 0 <= i < members.len() implies has_key(
                        cur,
                        (#[trigger] members[i]).0,
                    ) by {
                        assert(hs[i] == hs[i]);
                        assert(member_of(members, hs, escaped(members[i].0), hs[i]));
                        assert(holds(held, escaped(members[i].0), hs[i]));
                        let w = choose|w: int|
                            0 <= w < held.len() && #[trigger] held[w] == (
                                escaped(members[i].0),
                                hs[i],
                            );
                        lemma_escape_inverse(members[i].0);
                        assert(has_key(cur, unescaped(held[w].0)));
                    }
                    lemma_members_shape(members, lb.stands, cur);
                    assert(la.stands.contains_key(tgt));
                    assert(lb.stands.contains_key(tgt) && lb.stands[tgt] == x);
                    let l1 = lemma_closed(sc, st1, lb, tgt);
                    lemma_carried_trans(st, l, sta, la, st1, lb);
                    lemma_carried_trans(st, l, st1, lb, st1, l1);
                    assert(l1.busy =~= l.busy);
                    assert(read_ok(sc, st, l, slot, st1, l1, tgt, x));
                    (l1, tgt)
                },
                _ => (l, tgt),
            }
        }
    }
}

/// The proxy of an object whose document is a bare marker holds the
/// marker alone: the object has an id, and the marker gives it.
proof fn lemma_marker_proxy(sc: Scene, x: usize)
    requires
        scene_ok(sc),
        seen_at(sc.s, x),
        is_marker(doc(sc, proxy_at(sc.s, x))),
    ensures
        id_at(sc.s, x) is Some,
        ref_id(doc(sc, proxy_at(sc.s, x))->Object_0[0].1) == id_at(sc.s, x),
{
    let q = proxy_at(sc.s, x);
    let out = sc.s.out;
    assert(proxied(sc.g, sc.s, sc.book, x));
    if sc.g[x as int] is Object {
        lemma_doc_object(sc, x);
        let members = sc.g[x as int]->Object_0;
        let held = out[q as int]->Object_0;
        let hs = sc.book.handles[x];
        assert(held[0].0 == marker_key());
        assert(holds(held, held[0].0, held[0].1));
        if member_of(members, hs, held[0].0, held[0].1) {
            let i = choose|i: int|
                0 <= i < hs.len() && held[0].0 == escaped(members[i].0) && held[0].1
                    == #[trigger] hs[i];
            lemma_escaped_keys(members, i, i);
        }
        let m = sc.book.marks[x];
        assert(held[0].1 == m);
        assert(doc(sc, m) == Tree::Number(number_of_i64(id_at(sc.s, x)->0 as i64)));
        assert(number_i64(number_of_i64(id_at(sc.s, x)->0 as i64)) == Some(
            id_at(sc.s, x)->0 as i64,
        ));
    } else {
        lemma_doc_array(sc, x);
    }
}

/// The marker's value in the document at the proxy of an object gives the
/// object's id, and there is none where the object has no id.
proof fn lemma_marker_member(sc: Scene, x: usize)
    requires
        scene_ok(sc),
        seen_at(sc.s, x),
        sc.g[x as int] is Object,
    ensures
        ({
            let entries = doc(sc, proxy_at(sc.s, x))->Object_0;
            match id_at(sc.s, x) {
                Some(k) => marker_value(entries, 0) is Some && ref_id(marker_value(entries, 0)->0)
                    == Some(k),
                None => marker_value(entries, 0) is None && !is_marker(
                    doc(sc, proxy_at(sc.s, x)),
                ),
            }
        }),
{
    let q = proxy_at(sc.s, x);
    let out = sc.s.out;
    assert(proxied(sc.g, sc.s, sc.book, x));
    lemma_doc_object(sc, x);
    let members = sc.g[x as int]->Object_0;
    let held = out[q as int]->Object_0;
    let hs = sc.book.handles[x];
    let entries = doc(sc, q)->Object_0;
    lemma_sorted_distinct(held);
    match id_at(sc.s, x) {
        Some(k) => {
            let m = sc.book.marks[x];
            assert(holds(held, marker_key(), m));
            let at = choose|at: int| 0 <= at < held.len() && #[trigger] held[at] == (marker_key(), m);
            assert forall|j: int| 0 <= j < at implies (#[trigger] entries[j]).0 != marker_key() by {
                assert(held[j].0 != held[at].0);
            }
            lemma_marker_found(entries, 0, at);
            assert(doc(sc, m) == Tree::Number(number_of_i64(k as i64)));
            assert(number_i64(number_of_i64(k as i64)) == Some(k as i64));
        },
        None => {
            assert forall|j: int| 0 <= j < entries.len() implies (#[trigger] entries[j]).0
                != marker_key() by {
                assert(holds(held, held[j].0, held[j].1));
                if member_of(members, hs, held[j].0, held[j].1) {
                    let i = choose|i: int|
                        0 <= i < hs.len() && held[j].0 == escaped(members[i].0) && held[j].1
                            == #[trigger] hs[i];
                    lemma_escaped_keys(members, i, i);
                }
            }
            lemma_marker_absent(entries, 0);
        },
    }
}

/// Reading the elements of the document at the proxy of the array `c`,
/// from the one that stands for the `i`-th child on, into the node `tgt`.
proof fn lemma_read_items(sc: Scene, c: usize, tgt: usize, i: int, st: Decoding, l: Ledger) -> (l1:
    Ledger)
    requires
        scene_ok(sc),
        seen_at(sc.s, c),
        sc.g[c as int] is Array,
        ledger_ok(sc, st, l),
        l.busy.contains(tgt),
        l.stands[tgt] == c,
        0 <= i <= sc.book.handles[c].len(),
        place_items(
            doc(sc, proxy_at(sc.s, c))->Array_0,
            marker_part(sc.s, sc.book, c).len() + i,
            tgt,
            st,
        ) is Ok,
        place_items(
            doc(sc, proxy_at(sc.s, c))->Array_0,
            marker_part(sc.s, sc.book, c).len() + i,
            tgt,
            st,
        )->Ok_0.nodes.len() <= usize::MAX,
        st.nodes[tgt as int] is Array,
        st.nodes[tgt as int]->Array_0.len() == i,
        forall|j: int|
            0 <= j < i ==> l.stands.contains_key(#[trigger] st.nodes[tgt as int]->Array_0[j])
                && l.stands[st.nodes[tgt as int]->Array_0[j]] == child(sc.g[c as int], j),
    ensures
        filled_ok(
            sc,
            st,
            l,
            tgt,
            place_items(
                doc(sc, proxy_at(sc.s, c))->Array_0,
                marker_part(sc.s, sc.book, c).len() + i,
                tgt,
                st,
            )->Ok_0,
            l1,
        ),
        shaped(
            sc.g,
            place_items(
                doc(sc, proxy_at(sc.s, c))->Array_0,
                marker_part(sc.s, sc.book, c).len() + i,
                tgt,
                st,
            )->Ok_0.nodes,
            l1.stands,
            tgt,
        ),
    decreases sc.s.out.len() - proxy_at(sc.s, c), 0nat, sc.book.handles[c].len() - i,
{
    let q = proxy_at(sc.s, c);
    let hs = sc.book.handles[c];
    let off = marker_part(sc.s, sc.book, c).len() as int;
    let items = doc(sc, q)->Array_0;
    lemma_doc_array(sc, c);
    assert(proxied(sc.g, sc.s, sc.book, c));
    assert(l.stands.contains_key(tgt));
    if i < hs.len() {
        let x = child(sc.g[c as int], i);
        let slot = Slot::Elem(tgt);
        assert(items[off + i] == doc(sc, hs[i]));
        assert(enc(sc.g, sc.s, sc.book, hs[i], x));
        let sta = place(items[off + i], slot, st)->Ok_0;
        lemma_place_items_len(items, off + i + 1, tgt, sta);
        let (la, h) = lemma_read(sc, hs[i], x, slot, st, l);
        assert(sta.nodes[tgt as int] == linked(st.nodes[tgt as int], slot, h));
        let kids2 = sta.nodes[tgt as int]->Array_0;
        assert forall|j: int| 0 <= j < i + 1 implies la.stands.contains_key(#[trigger] kids2[j])
            && la.stands[kids2[j]] == child(sc.g[c as int], j) by {
            if j < i {
                assert(kids2[j] == st.nodes[tgt as int]->Array_0[j]);
                assert(l.stands.contains_key(st.nodes[tgt as int]->Array_0[j]));
            }
        }
        let lb = lemma_read_items(sc, c, tgt, i + 1, sta, la);
        let st1 = place_items(items, off + i + 1, tgt, sta)->Ok_0;
        lemma_carried_trans(st, l, sta, la, st1, lb);
        assert forall|n: usize| #[trigger] l.busy.contains(n) && n != tgt implies st1.nodes[n as int]
            == st.nodes[n as int] by {
            assert(la.busy.contains(n));
        }
        lb
    } else {
        assert(shaped(sc.g, st.nodes, l.stands, tgt)) by {
            let kids = sc.g[c as int]->Array_0;
            assert forall|j: int| 0 <= j < kids.len() implies l.stands.contains_key(
                #[trigger] st.nodes[tgt as int]->Array_0[j],
            ) && l.stands[st.nodes[tgt as int]->Array_0[j]] == kids[j] by {
                assert(child(sc.g[c as int], j) == kids[j]);
            }
        }
        l
    }
}

/// Reading the members of the document at the proxy of the object `c`,
/// from the `j`-th on, into the node `tgt`.
proof fn lemma_read_members(sc: Scene, c: usize, tgt: usize, j: int, st: Decoding, l: Ledger) -> (l1:
    Ledger)
    requires
        scene_ok(sc),
        seen_at(sc.s, c),
        sc.g[c as int] is Object,
        ledger_ok(sc, st, l),
        l.busy.contains(tgt),
        l.stands[tgt] == c,
        0 <= j <= sc.s.out[proxy_at(sc.s, c) as int]->Object_0.len(),
        place_members(doc(sc, proxy_at(sc.s, c))->Object_0, j, tgt, st) is Ok,
        place_members(doc(sc, proxy_at(sc.s, c))->Object_0, j, tgt, st)->Ok_0.nodes.len()
            <= usize::MAX,
        st.nodes[tgt as int] is Object,
        sorted(st.nodes[tgt as int]->Object_0),
        sound(sc.g[c as int]->Object_0, l.stands, st.nodes[tgt as int]->Object_0),
        forall|w: int|
            0 <= w < j && (#[trigger] sc.s.out[proxy_at(sc.s, c) as int]->Object_0[w]).0
                != marker_key() ==> has_key(
                st.nodes[tgt as int]->Object_0,
                unescaped(sc.s.out[proxy_at(sc.s, c) as int]->Object_0[w].0),
            ),
    ensures
        ({
            let st1 = place_members(doc(sc, proxy_at(sc.s, c))->Object_0, j, tgt, st)->Ok_0;
            let held = sc.s.out[proxy_at(sc.s, c) as int]->Object_0;
            &&& filled_ok(sc, st, l, tgt, st1, l1)
            &&& st1.nodes[tgt as int] is Object
            &&& sorted(st1.nodes[tgt as int]->Object_0)
            &&& sound(sc.g[c as int]->Object_0, l1.stands, st1.nodes[tgt as int]->Object_0)
            &&& forall|w: int|
                0 <= w < held.len() && (#[trigger] held[w]).0 != marker_key() ==> has_key(
                    st1.nodes[tgt as int]->Object_0,
                    unescaped(held[w].0),
                )
        }),
    decreases sc.s.out.len() - proxy_at(sc.s, c), 0nat,
        sc.s.out[proxy_at(sc.s, c) as int]->Object_0.len() - j,
{
    let q = proxy_at(sc.s, c);
    let out = sc.s.out;
    let held = out[q as int]->Object_0;
    let members = sc.g[c as int]->Object_0;
    let hs = sc.book.handles[c];
    let entries = doc(sc, q)->Object_0;
    let cur = st.nodes[tgt as int]->Object_0;
    lemma_doc_object(sc, c);
    assert(proxied(sc.g, sc.s, sc.book, c));
    assert(l.stands.contains_key(tgt));
    if j < held.len() {
        assert(entries[j] == (held[j].0, doc(sc, held[j].1)));
        if held[j].0 == marker_key() {
            lemma_read_members(sc, c, tgt, j + 1, st, l)
        } else {
            assert(holds(held, held[j].0, held[j].1));
            assert(member_of(members, hs, held[j].0, held[j].1));
            let i = choose|i: int|
                0 <= i < hs.len() && held[j].0 == escaped(members[i].0) && held[j].1
                    == #[trigger] hs[i];
            lemma_escape_inverse(members[i].0);
            let key = members[i].0;
            let x = members[i].1;
            assert(x == child(sc.g[c as int], i));
            assert(enc(sc.g, sc.s, sc.book, hs[i], x));
            let slot = Slot::Member(tgt, key);
            let sta = place(entries[j].1, slot, st)->Ok_0;
            lemma_place_members_len(entries, j + 1, tgt, sta);
            let (la, h) = lemma_read(sc, held[j].1, x, slot, st, l);
            assert(sta.nodes[tgt as int] == linked(st.nodes[tgt as int], slot, h));
            let cur1 = sta.nodes[tgt as int]->Object_0;
            assert(cur1 == put(cur, key, h));
            lemma_put_sorted(cur, key, h);
            assert(sound(members, la.stands, cur1)) by {
                assert forall|w: int| 0 <= w < cur1.len() implies under(
                    members,
                    la.stands,
                    (#[trigger] cur1[w]).0,
                    cur1[w].1,
                ) by {
                    assert(holds(cur1, cur1[w].0, cur1[w].1));
                    lemma_put_holds(cur, key, h, cur1[w].0, cur1[w].1);
                    if cur1[w].0 == key && cur1[w].1 == h {
                        assert(members[i].0 == key && la.stands[h] == members[i].1);
                    } else {
                        let w0 = choose|w0: int|
                            0 <= w0 < cur.len() && #[trigger] cur[w0] == (cur1[w].0, cur1[w].1);
                        assert(under(members, l.stands, cur[w0].0, cur[w0].1));
                        let i0 = choose|i0: int|
                            0 <= i0 < members.len() && cur[w0].0 == (#[trigger] members[i0]).0
                                && l.stands.contains_key(cur[w0].1) && l.stands[cur[w0].1]
                                == members[i0].1;
                        assert(members[i0].0 == cur1[w].0 && la.stands.contains_key(cur1[w].1)
                            && la.stands[cur1[w].1] == members[i0].1);
                    }
                }
            }
            assert forall|w: int|
                0 <= w < j + 1 && (#[trigger] held[w]).0 != marker_key() implies has_key(
                cur1,
                unescaped(held[w].0),
            ) by {
                if w == j {
                    lemma_put_holds(cur, key, h, key, h);
                    let z = choose|z: int| 0 <= z < cur1.len() && #[trigger] cur1[z] == (key, h);
                    assert(cur1[z].0 == key);
                } else {
                    let k2 = unescaped(held[w].0);
                    assert(has_key(cur, k2));
                    let z0 = choose|z0: int| 0 <= z0 < cur.len() && (#[trigger] cur[z0]).0 == k2;
                    lemma_put_holds(cur, key, h, k2, cur[z0].1);
                    lemma_put_holds(cur, key, h, key, h);
                    assert(holds(cur, k2, cur[z0].1));
                    if k2 == key {
                        let z = choose|z: int|
                            0 <= z < cur1.len() && #[trigger] cur1[z] == (key, h);
                        assert(cur1[z].0 == k2);
                    } else {
                        let z = choose|z: int|
                            0 <= z < cur1.len() && #[trigger] cur1[z] == (k2, cur[z0].1);
                        assert(cur1[z].0 == k2);
                    }
                }
            }
            let lb = lemma_read_members(sc, c, tgt, j + 1, sta, la);
            let st1 = place_members(entries, j + 1, tgt, sta)->Ok_0;
            lemma_carried_trans(st, l, sta, la, st1, lb);
            assert forall|n: usize| #[trigger] l.busy.contains(n) && n != tgt implies
                st1.nodes[n as int] == st.nodes[n as int] by {
                assert(la.busy.contains(n));
            }
            lb
        }
    } else {
        l
    }
}

/// The graph that comes back stands for the graph that was encoded.
///
/// Take a graph whose encoding succeeds and decodes, with no more nodes in
/// either than a handle can count; let integers written as numbers be read
/// back as the same integers; and let no array without an id begin, in
/// the encoding, with what reads as a marker. Then every node that the
/// decoding makes stands for a node of the graph: the root for the root, a
/// leaf for an equal leaf, a container for a container with as many
/// children under the same keys, each child standing for the child at its
/// place. A container that was given an id has one node only that stands
/// for it.
pub proof fn lemma_decoded_stands(g: Graph, limit: i32) -> (stands: Map<usize, usize>)
    requires
        g.wf(),
        encode_run(g.nodes, limit, encoding_start(g)) is Ok,
        encode_run(g.nodes, limit, encoding_start(g))->Ok_0.out.len() <= usize::MAX,
        inflate_spec(unfold(encode_run(g.nodes, limit, encoding_start(g))->Ok_0.out, 0)) is Ok,
        inflate_spec(
            unfold(encode_run(g.nodes, limit, encoding_start(g))->Ok_0.out, 0),
        )->Ok_0.nodes.len() <= usize::MAX,
        numbers_read_back(),
        arrays_begin_plainly(g.nodes, stage(encode_run(g.nodes, limit, encoding_start(g))->Ok_0)),
    ensures
        ({
            let end = encode_run(g.nodes, limit, encoding_start(g))->Ok_0;
            let back = inflate_spec(unfold(end.out, 0))->Ok_0;
            &&& back.root == 0
            &&& stands.contains_key(back.root)
            &&& stands[back.root] == g.root
            &&& forall|n: usize| #[trigger]
                stands.contains_key(n) ==> shaped(g.nodes, back.nodes, stands, n)
            &&& forall|n: usize, m: usize|
                stands.contains_key(n) && stands.contains_key(m) && #[trigger] stands[n]
                    == #[trigger] stands[m] && is_container(g.nodes, stands[n]) && id_at(
                    stage(end),
                    stands[n],
                ) is Some ==> n == m
            &&& forall|n: usize| #[trigger]
                stands.contains_key(n) && is_container(g.nodes, stands[n]) ==> seen_at(
                    stage(end),
                    stands[n],
                )
        }),
{
    let end = encode_run(g.nodes, limit, encoding_start(g))->Ok_0;
    let book = lemma_deflate_booked(g, limit);
    lemma_ids_follow_second_visits(g, limit);
    let sc = Scene { g: g.nodes, s: stage(end), book, order: end.order };
    assert(scene_ok(sc)) by {
        assert forall|c: usize| #[trigger]
            seen_at(sc.s, c) && id_at(sc.s, c) is Some implies 1 <= id_at(sc.s, c)->0
            <= sc.order.len() && sc.order[id_at(sc.s, c)->0 - 1] == c by {
            assert(id_of(end.seen, c as int) == id_at(sc.s, c));
        }
        assert forall|k: int| 0 <= k < sc.order.len() implies seen_at(
            sc.s,
            #[trigger] sc.order[k],
        ) && id_at(sc.s, sc.order[k]) == Some((k + 1) as i32) by {
            assert(id_of(end.seen, sc.order[k] as int) == Some((k + 1) as i32));
        }
    }
    let d = unfold(end.out, 0);
    let st0 = decoding_start();
    let l0 = Ledger { stands: Map::empty(), done: Set::empty(), busy: Set::empty() };
    let (l1, h) = lemma_read(sc, 0, g.root, Slot::Root, st0, l0);
    let st1 = place(d, Slot::Root, st0)->Ok_0;
    assert(all_owned(st1.refs));
    assert forall|n: usize| #[trigger] l1.stands.contains_key(n) implies shaped(
        g.nodes,
        st1.nodes,
        l1.stands,
        n,
    ) by {
        if !l1.done.contains(n) {
            let k = id_at(sc.s, l1.stands[n])->0;
            assert(st1.refs.contains_key(k));
            assert(st1.refs[k].owned);
        }
    }
    assert forall|n: usize, m: usize|
        l1.stands.contains_key(n) && l1.stands.contains_key(m) && #[trigger] l1.stands[n]
            == #[trigger] l1.stands[m] && is_container(g.nodes, l1.stands[n]) && id_at(
            stage(end),
            l1.stands[n],
        ) is Some implies n == m by {
        let k = id_at(sc.s, l1.stands[n])->0;
        assert(st1.refs[k].node == n);
        assert(st1.refs[k].node == m);
    }
    l1.stands
}

} // verus!
