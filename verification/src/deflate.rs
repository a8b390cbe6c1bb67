//! Encoding: from a graph, which may share nodes and hold cycles, to a plain
//! tree in which every repeated visit of a container is a reference marker.

use vstd::prelude::*;
use vstd::string::*;
use crate::bridge::{lemma_represents_canonical, plain};
use crate::members::lemma_put_at;
use crate::error::CodecError;
use crate::graph::{
    add_node, arena, arena_wf, attach, child, child_count, empty_array, empty_object,
    lemma_unfold_represents, link, ordered, unfold, GNode, GObject, Graph, GraphValue, Node,
    Place, Slot,
};
use crate::keys::{escape_key, escaped, lemma_put_sorted, marker_key, put, sorted};
use crate::number::{number_from_i64, number_of_i64, MAX_REF_ID};
use crate::tree::{canonical, JsonValue, Tree};

verus! {

/// What the encoder knows of a container that it has visited: the proxy that
/// stands for it in the output, and its reference id once it has one.
#[derive(Clone, Copy, Debug)]
pub struct Seen {
    pub proxy: usize,
    pub id: Option<i32>,
}

/// The state of an encoding.
pub struct Encoding {
    /// The visits still to be made, the next one last: a node of the graph
    /// and the slot of the output that its encoding goes to.
    pub stack: Seq<(usize, Slot)>,
    /// The output so far, an arena of proxies, copies and markers.
    pub out: Seq<Node>,
    /// The identity table: for each node of the graph, what is known of it.
    pub seen: Seq<Option<Seen>>,
    /// The nodes that have a reference id, in the order of their ids.
    pub order: Seq<usize>,
    /// The visits made so far, in the order in which they were made.
    pub visits: Seq<usize>,
}

/// The number node that holds a reference id.
pub open spec fn marker_number(id: i32) -> Node {
    Node::Number(number_of_i64(id as i64))
}

/// The output with the reference placeholder for `id` added at its end: an
/// object whose one member, under the marker key, is the id.
pub open spec fn with_placeholder(out: Seq<Node>, id: i32) -> Seq<Node> {
    out.push(Node::Object(seq![(marker_key(), (out.len() + 1) as usize)])).push(
        marker_number(id),
    )
}

/// The output after the proxy already in it is made to carry `id`: an object
/// proxy gets the id as a member under the marker key, an array proxy gets
/// the reference placeholder as its first element, before those it has.
pub open spec fn marked(out: Seq<Node>, proxy: usize, id: i32) -> Seq<Node> {
    if proxy < out.len() {
        match out[proxy as int] {
            Node::Object(members) => out.push(marker_number(id)).update(
                proxy as int,
                Node::Object(put(members, marker_key(), out.len() as usize)),
            ),
            Node::Array(kids) => with_placeholder(out, id).update(
                proxy as int,
                Node::Array(kids.insert(0, out.len() as usize)),
            ),
            _ => out,
        }
    } else {
        out
    }
}

/// The visits that a container's children ask for, the first child last.
/// Each goes to the container's proxy: an element to its end, a member
/// under its escaped key.
pub open spec fn work_of(node: Node, proxy: usize) -> Seq<(usize, Slot)> {
    match node {
        Node::Array(kids) => Seq::new(
            kids.len(),
            |j: int| (kids[kids.len() - 1 - j], Slot::Elem(proxy)),
        ),
        Node::Object(members) => Seq::new(
            members.len(),
            |j: int|
                (
                    members[members.len() - 1 - j].1,
                    Slot::Member(proxy, escaped(members[members.len() - 1 - j].0)),
                ),
        ),
        _ => Seq::empty(),
    }
}

/// What a first visit puts into the output: a copy of a leaf, an empty
/// proxy of a container.
pub open spec fn blank(node: Node) -> Node {
    match node {
        Node::Array(_) => Node::Array(Seq::empty()),
        Node::Object(_) => Node::Object(Seq::empty()),
        _ => node,
    }
}

/// One visit.
///
/// A leaf is copied. A container met for the first time gets an empty
/// proxy, is entered in the identity table without an id, and has its
/// children put on the work list. A container met again is encoded as the
/// reference placeholder of its id; where it has none yet, it first gets
/// the id after the last one given, and its proxy is marked with it. There
/// is no id beyond `limit`.
pub open spec fn encode_step(g: Seq<Node>, limit: i32, st: Encoding) -> Result<Encoding, CodecError> {
    let n = st.stack.last().0;
    let slot = st.stack.last().1;
    let rest = st.stack.drop_last();
    let fresh = st.out.len() as usize;
    if n >= g.len() || n >= st.seen.len() {
        Ok(
            Encoding {
                stack: rest,
                out: st.out,
                seen: st.seen,
                order: st.order,
                visits: st.visits.push(n),
            },
        )
    } else if !(g[n as int] is Array || g[n as int] is Object) {
        Ok(
            Encoding {
                stack: rest,
                out: attach(st.out.push(g[n as int]), slot, fresh),
                seen: st.seen,
                order: st.order,
                visits: st.visits.push(n),
            },
        )
    } else {
        match st.seen[n as int] {
            None => Ok(
                Encoding {
                    stack: rest + work_of(g[n as int], fresh),
                    out: attach(st.out.push(blank(g[n as int])), slot, fresh),
                    seen: st.seen.update(n as int, Some(Seen { proxy: fresh, id: None })),
                    order: st.order,
                    visits: st.visits.push(n),
                },
            ),
            Some(e) => match e.id {
                Some(id) => Ok(
                    Encoding {
                        stack: rest,
                        out: attach(with_placeholder(st.out, id), slot, fresh),
                        seen: st.seen,
                        order: st.order,
                        visits: st.visits.push(n),
                    },
                ),
                None => if st.order.len() >= limit {
                    Err(CodecError::RefIdOverflow)
                } else {
                    let id = (st.order.len() + 1) as i32;
                    let out1 = marked(st.out, e.proxy, id);
                    Ok(
                        Encoding {
                            stack: rest,
                            out: attach(with_placeholder(out1, id), slot, out1.len() as usize),
                            seen: st.seen.update(
                                n as int,
                                Some(Seen { proxy: e.proxy, id: Some(id) }),
                            ),
                            order: st.order.push(n),
                            visits: st.visits.push(n),
                        },
                    )
                },
            },
        }
    }
}

/// How many nodes the identity table has no entry for.
pub open spec fn unseen(seen: Seq<Option<Seen>>) -> nat
    decreases seen.len(),
{
    if seen.len() == 0 {
        0
    } else {
        unseen(seen.drop_last()) + if seen.last() is None {
            1nat
        } else {
            0nat
        }
    }
}

proof fn lemma_unseen_update(seen: Seq<Option<Seen>>, n: int, e: Seen)
    requires
        0 <= n < seen.len(),
    ensures
        unseen(seen.update(n, Some(e))) + (if seen[n] is None {
            1nat
        } else {
            0nat
        }) == unseen(seen),
    decreases seen.len(),
{
    let after = seen.update(n, Some(e));
    if n == seen.len() - 1 {
        assert(after.drop_last() =~= seen.drop_last());
    } else {
        assert(after.drop_last() =~= seen.drop_last().update(n, Some(e)));
        lemma_unseen_update(seen.drop_last(), n, e);
    }
}

/// Every visit leaves less to do: it enters a node in the identity table,
/// or leaves the table's entries in place and shortens the work list.
pub proof fn lemma_step_measure(g: Seq<Node>, limit: i32, st: Encoding)
    requires
        st.stack.len() > 0,
        encode_step(g, limit, st) is Ok,
    ensures
        ({
            let st1 = encode_step(g, limit, st)->Ok_0;
            unseen(st1.seen) < unseen(st.seen) || (unseen(st1.seen) == unseen(st.seen)
                && st1.stack.len() < st.stack.len())
        }),
{
    let n = st.stack.last().0;
    if n < g.len() && n < st.seen.len() {
        match st.seen[n as int] {
            None => {
                lemma_unseen_update(
                    st.seen,
                    n as int,
                    Seen { proxy: st.out.len() as usize, id: None },
                );
            },
            Some(e) => {
                lemma_unseen_update(
                    st.seen,
                    n as int,
                    Seen { proxy: e.proxy, id: Some((st.order.len() + 1) as i32) },
                );
            },
        }
    }
}

/// The state when the work list has run empty, or the failure that ended
/// the encoding.
pub open spec fn encode_run(g: Seq<Node>, limit: i32, st: Encoding) -> Result<Encoding, CodecError>
    decreases unseen(st.seen), st.stack.len(),
    via encode_run_decreases
{
    if st.stack.len() == 0 {
        Ok(st)
    } else {
        match encode_step(g, limit, st) {
            Err(e) => Err(e),
            Ok(st1) => encode_run(g, limit, st1),
        }
    }
}

#[via_fn]
proof fn encode_run_decreases(g: Seq<Node>, limit: i32, st: Encoding) {
    if st.stack.len() > 0 && encode_step(g, limit, st) is Ok {
        lemma_step_measure(g, limit, st);
    }
}

/// The state in which the encoding of a graph starts: the root is to be
/// visited, and nothing has been.
pub open spec fn encoding_start(g: Graph) -> Encoding {
    Encoding {
        stack: seq![(g.root, Slot::Root)],
        out: Seq::empty(),
        seen: Seq::new(g.nodes.len(), |i: int| None),
        order: Seq::empty(),
        visits: Seq::empty(),
    }
}

/// The plain tree that a graph encodes to where reference ids run up to
/// `limit`, or the failure: the tree seen from the first node of the output.
pub open spec fn deflate_spec(g: Graph, limit: i32) -> Result<Tree, CodecError> {
    match encode_run(g.nodes, limit, encoding_start(g)) {
        Err(e) => Err(e),
        Ok(st) => Ok(unfold(st.out, 0)),
    }
}

/// The arena is well formed and every child lies after its parent.
pub open spec fn tidy(nodes: Seq<Node>) -> bool {
    arena_wf(nodes) && ordered(nodes)
}

/// The slot names no node at or after `c`.
pub open spec fn slot_below(slot: Slot, c: int) -> bool {
    match slot {
        Slot::Root => true,
        Slot::Elem(p) => p < c,
        Slot::Member(p, _) => p < c,
    }
}

proof fn lemma_tidy_push(a: Seq<Node>, node: Node)
    requires
        tidy(a),
        a.len() < usize::MAX,
        child_count(node) == 0,
    ensures
        tidy(a.push(node)),
{
    let b = a.push(node);
    assert forall|n: int, i: int| 0 <= n < b.len() && 0 <= i < child_count(b[n]) implies n < (
    #[trigger] child(b[n], i)) < b.len() by {
        assert(b[n] == a[n]);
        assert(n < child(a[n], i) < a.len());
    }
    assert forall|n: int| 0 <= n < b.len() implies (#[trigger] b[n] matches Node::Object(
        members,
    ) ==> sorted(members)) by {
        if n < a.len() {
            assert(b[n] == a[n]);
        }
    }
}

proof fn lemma_tidy_attach(a: Seq<Node>, slot: Slot, c: usize)
    requires
        tidy(a),
        c < a.len(),
        slot_below(slot, c as int),
    ensures
        tidy(attach(a, slot, c)),
        attach(a, slot, c).len() == a.len(),
{
    let b = attach(a, slot, c);
    match slot {
        Slot::Root => {},
        Slot::Elem(p) => {
            if a[p as int] is Array {
                let kids = a[p as int]->Array_0;
                assert forall|n: int, i: int|
                    0 <= n < b.len() && 0 <= i < child_count(b[n]) implies n < (#[trigger] child(
                    b[n],
                    i,
                )) < b.len() by {
                    if n == p {
                        if i < kids.len() {
                            assert(child(b[n], i) == child(a[n], i));
                        }
                    } else {
                        assert(child(b[n], i) == child(a[n], i));
                    }
                }
                assert forall|n: int| 0 <= n < b.len() implies (#[trigger] b[n] matches Node::Object(
                    members,
                ) ==> sorted(members)) by {
                    if n != p {
                        assert(b[n] == a[n]);
                    }
                }
            }
        },
        Slot::Member(p, key) => {
            if a[p as int] is Object {
                let members = a[p as int]->Object_0;
                lemma_put_sorted(members, key, c);
                assert forall|n: int, i: int|
                    0 <= n < b.len() && 0 <= i < child_count(b[n]) implies n < (#[trigger] child(
                    b[n],
                    i,
                )) < b.len() by {
                    if n == p {
                        lemma_put_at(members, key, c, i);
                        let r = crate::keys::rank(members, key, 0);
                        if r < members.len() && members[r].0 == key {
                            if i != r {
                                assert(child(b[n], i) == child(a[n], i));
                            }
                        } else {
                            if i < r {
                                assert(child(b[n], i) == child(a[n], i));
                            } else if i > r {
                                assert(child(b[n], i) == child(a[n], i - 1));
                            }
                        }
                    } else {
                        assert(child(b[n], i) == child(a[n], i));
                    }
                }
                assert forall|n: int| 0 <= n < b.len() implies (#[trigger] b[n] matches Node::Object(
                    ms,
                ) ==> sorted(ms)) by {
                    if n != p {
                        assert(b[n] == a[n]);
                    }
                }
            }
        },
    }
}

proof fn lemma_tidy_placeholder(a: Seq<Node>, id: i32)
    requires
        tidy(a),
        a.len() + 2 <= usize::MAX,
    ensures
        tidy(with_placeholder(a, id)),
        with_placeholder(a, id).len() == a.len() + 2,
{
    let b = with_placeholder(a, id);
    assert forall|n: int, i: int| 0 <= n < b.len() && 0 <= i < child_count(b[n]) implies n < (
    #[trigger] child(b[n], i)) < b.len() by {
        if n < a.len() {
            assert(b[n] == a[n]);
            assert(n < child(a[n], i) < a.len());
        }
    }
    assert forall|n: int| 0 <= n < b.len() implies (#[trigger] b[n] matches Node::Object(
        members,
    ) ==> sorted(members)) by {
        if n < a.len() {
            assert(b[n] == a[n]);
        }
    }
}

proof fn lemma_tidy_marked(a: Seq<Node>, proxy: usize, id: i32)
    requires
        tidy(a),
        proxy < a.len(),
        a.len() + 2 <= usize::MAX,
    ensures
        tidy(marked(a, proxy, id)),
        a.len() <= marked(a, proxy, id).len() <= a.len() + 2,
{
    let b = marked(a, proxy, id);
    let fresh = a.len() as usize;
    match a[proxy as int] {
        Node::Object(members) => {
            lemma_put_sorted(members, marker_key(), fresh);
            assert forall|n: int, i: int|
                0 <= n < b.len() && 0 <= i < child_count(b[n]) implies n < (#[trigger] child(
                b[n],
                i,
            )) < b.len() by {
                if n == proxy {
                    lemma_put_at(members, marker_key(), fresh, i);
                    let r = crate::keys::rank(members, marker_key(), 0);
                    if r < members.len() && members[r].0 == marker_key() {
                        if i != r {
                            assert(child(b[n], i) == child(a[n], i));
                        }
                    } else {
                        if i < r {
                            assert(child(b[n], i) == child(a[n], i));
                        } else if i > r {
                            assert(child(b[n], i) == child(a[n], i - 1));
                        }
                    }
                } else if n < a.len() {
                    assert(child(b[n], i) == child(a[n], i));
                    assert(n < child(a[n], i) < a.len());
                }
            }
            assert forall|n: int| 0 <= n < b.len() implies (#[trigger] b[n] matches Node::Object(
                ms,
            ) ==> sorted(ms)) by {
                if n != proxy && n < a.len() {
                    assert(b[n] == a[n]);
                }
            }
        },
        Node::Array(kids) => {
            lemma_tidy_placeholder(a, id);
            let mid = with_placeholder(a, id);
            assert forall|n: int, i: int|
                0 <= n < b.len() && 0 <= i < child_count(b[n]) implies n < (#[trigger] child(
                b[n],
                i,
            )) < b.len() by {
                if n == proxy {
                    if i > 0 {
                        assert(child(b[n], i) == child(a[n], i - 1));
                        assert(n < child(a[n], i - 1) < a.len());
                    }
                } else {
                    assert(b[n] == mid[n]);
                    assert(n < child(mid[n], i) < mid.len());
                }
            }
            assert forall|n: int| 0 <= n < b.len() implies (#[trigger] b[n] matches Node::Object(
                ms,
            ) ==> sorted(ms)) by {
                if n != proxy {
                    assert(b[n] == mid[n]);
                }
            }
        },
        _ => {},
    }
}

/// The work list as a mathematical value.
pub open spec fn work_view(stack: Seq<(usize, Place)>) -> Seq<(usize, Slot)> {
    Seq::new(stack.len(), |i: int| (stack[i].0, stack[i].1@))
}

/// An encoding under way.
struct Encoder {
    stack: Vec<(usize, Place)>,
    out: Vec<GNode>,
    seen: Vec<Option<Seen>>,
    counter: i32,
    order: Ghost<Seq<usize>>,
    visits: Ghost<Seq<usize>>,
}

impl View for Encoder {
    type V = Encoding;

    closed spec fn view(&self) -> Encoding {
        Encoding {
            stack: work_view(self.stack@),
            out: arena(self.out@),
            seen: self.seen@,
            order: self.order@,
            visits: self.visits@,
        }
    }
}

/// What holds of the state between visits.
pub open spec fn steady(g: Seq<Node>, st: Encoding) -> bool {
    &&& arena_wf(g)
    &&& st.seen.len() == g.len()
    &&& forall|k: int|
        0 <= k < st.stack.len() ==> (#[trigger] st.stack[k]).0 < g.len() && slot_below(
            st.stack[k].1,
            st.out.len() as int,
        )
    &&& tidy(st.out)
    &&& forall|n: int|
        0 <= n < st.seen.len() ==> ((#[trigger] st.seen[n]) matches Some(e) ==> e.proxy
            < st.out.len())
    &&& st.order.len() <= i32::MAX
}

/// A visit that succeeds keeps the state steady and leaves nodes in the output.
pub proof fn lemma_step_steady(g: Seq<Node>, limit: i32, st: Encoding)
    requires
        steady(g, st),
        st.stack.len() > 0,
        encode_step(g, limit, st) is Ok,
        encode_step(g, limit, st)->Ok_0.out.len() <= usize::MAX,
    ensures
        steady(g, encode_step(g, limit, st)->Ok_0),
        encode_step(g, limit, st)->Ok_0.out.len() > 0,
{
    let st1 = encode_step(g, limit, st)->Ok_0;
    let n = st.stack.last().0;
    let slot = st.stack.last().1;
    let rest = st.stack.drop_last();
    let fresh = st.out.len() as usize;
    let node = g[n as int];
    assert(st.stack[st.stack.len() - 1] == st.stack.last());
    assert(forall|k: int| 0 <= k < rest.len() ==> rest[k] == st.stack[k]);
    if !(node is Array || node is Object) {
        lemma_tidy_push(st.out, node);
        lemma_tidy_attach(st.out.push(node), slot, fresh);
    } else {
        match st.seen[n as int] {
            None => {
                lemma_tidy_push(st.out, blank(node));
                lemma_tidy_attach(st.out.push(blank(node)), slot, fresh);
                let work = work_of(node, fresh);
                assert forall|k: int| 0 <= k < st1.stack.len() implies (
                #[trigger] st1.stack[k]).0 < g.len() && slot_below(
                    st1.stack[k].1,
                    st1.out.len() as int,
                ) by {
                    if k < rest.len() {
                        assert(st1.stack[k] == st.stack[k]);
                    } else {
                        let j = k - rest.len();
                        assert(st1.stack[k] == work[j]);
                        assert(work[j].0 == child(node, child_count(node) - 1 - j));
                    }
                }
            },
            Some(e) => match e.id {
                Some(id) => {
                    lemma_tidy_placeholder(st.out, id);
                    lemma_tidy_attach(with_placeholder(st.out, id), slot, fresh);
                },
                None => {
                    let id = (st.order.len() + 1) as i32;
                    let out1 = marked(st.out, e.proxy, id);
                    assert(out1.len() <= st1.out.len());
                    assert(st.out.len() + 2 <= usize::MAX) by {
                        assert(with_placeholder(out1, id).len() == out1.len() + 2);
                        assert(out1.len() >= st.out.len());
                    }
                    lemma_tidy_marked(st.out, e.proxy, id);
                    lemma_tidy_placeholder(out1, id);
                    lemma_tidy_attach(with_placeholder(out1, id), slot, out1.len() as usize);
                },
            },
        }
    }
}

/// A fresh copy of a leaf.
pub fn clone_primitive(node: &GNode) -> (r: GNode)
    requires
        !(node@ is Array || node@ is Object),
    ensures
        r@ == node@,
{
    match node {
        GNode::Bool(b) => GNode::Bool(*b),
        GNode::Number(x) => GNode::Number(x.clone()),
        GNode::String(s) => GNode::String(s.clone()),
        _ => GNode::Null,
    }
}

/// Adds the reference placeholder for `id` and returns its handle.
fn make_ref_object(out: &mut Vec<GNode>, id: i32) -> (r: usize)
    ensures
        r == old(out)@.len(),
        arena(final(out)@) == with_placeholder(arena(old(out)@), id),
        final(out)@.len() <= usize::MAX,
{
    let r = out.len();
    let mut o = GObject(Vec::new());
    proof {
        assert(o@ =~= Seq::empty());
    }
    if r < usize::MAX {
        proof {
            reveal_strlit("#");
            assert("#"@ =~= marker_key());
            crate::keys::lemma_rank(o@, marker_key(), 0);
        }
        o.insert(String::from_str("#"), r + 1);
        proof {
            assert(o@ =~= seq![(marker_key(), (r + 1) as usize)]);
        }
    }
    let ghost before = arena(out@);
    add_node(out, GNode::Object(o));
    add_node(out, GNode::Number(number_from_i64(id as i64)));
    proof {
        assert(arena(out@) =~= with_placeholder(before, id));
    }
    r
}

/// Makes the proxy carry `id`.
fn mark(out: &mut Vec<GNode>, proxy: usize, id: i32)
    requires
        proxy < old(out)@.len(),
    ensures
        arena(final(out)@) == marked(arena(old(out)@), proxy, id),
        final(out)@.len() <= usize::MAX,
{
    let ghost before = arena(out@);
    let fresh = out.len();
    let is_object = match &out[proxy] {
        GNode::Object(_) => true,
        _ => false,
    };
    let is_array = match &out[proxy] {
        GNode::Array(_) => true,
        _ => false,
    };
    if is_object {
        add_node(out, GNode::Number(number_from_i64(id as i64)));
        proof {
            reveal_strlit("#");
            assert("#"@ =~= marker_key());
        }
        link(out, Place::Member(proxy, String::from_str("#")), fresh);
        proof {
            assert(arena(out@) =~= marked(before, proxy, id));
        }
    } else if is_array {
        make_ref_object(out, id);
        let ghost mid = arena(out@);
        proof {
            assert(mid.len() == out@.len());
            assert(mid[proxy as int] == before[proxy as int]);
            assert(mid[proxy as int] == out@[proxy as int]@);
        }
        match &mut out[proxy] {
            GNode::Array(kids) => {
                kids.0.insert(0, fresh);
            },
            _ => {},
        }
        proof {
            assert(arena(out@).len() == mid.len());
            assert forall|i: int| 0 <= i < mid.len() implies arena(out@)[i] == marked(
                before,
                proxy,
                id,
            )[i] by {
                assert(arena(out@)[i] == out@[i]@);
                if i != proxy {
                    assert(mid[i] == marked(before, proxy, id)[i]);
                }
            }
            assert(arena(out@) =~= marked(before, proxy, id));
        }
    }
}

/// Puts the visits that a container's children ask for onto the work list.
fn push_work(stack: &mut Vec<(usize, Place)>, node: &GNode, proxy: usize)
    ensures
        work_view(final(stack)@) == work_view(old(stack)@) + work_of(node@, proxy),
{
    let ghost rest = work_view(stack@);
    let ghost work = work_of(node@, proxy);
    match node {
        GNode::Array(a) => {
            let mut i: usize = a.0.len();
            while i > 0
                invariant
                    i <= a.0@.len(),
                    node@ == Node::Array(a.0@),
                    work == work_of(node@, proxy),
                    work_view(stack@) == rest + work.take(a.0@.len() - i),
                decreases i,
            {
                i -= 1;
                let ghost prev = work_view(stack@);
                stack.push((a.0[i], Place::Elem(proxy)));
                proof {
                    assert(work_view(stack@) =~= prev.push((a.0@[i as int], Slot::Elem(proxy))));
                    assert(work_view(stack@) =~= rest + work.take(a.0@.len() - i));
                }
            }
            proof {
                assert(work.take(a.0@.len() as int) =~= work);
            }
        },
        GNode::Object(o) => {
            let mut i: usize = o.0.len();
            while i > 0
                invariant
                    i <= o.0@.len(),
                    node@ == Node::Object(o@),
                    work == work_of(node@, proxy),
                    work_view(stack@) == rest + work.take(o.0@.len() - i),
                decreases i,
            {
                i -= 1;
                let ghost prev = work_view(stack@);
                let key = escape_key(o.0[i].0.as_str());
                stack.push((o.0[i].1, Place::Member(proxy, key)));
                proof {
                    assert(o@[i as int] == (o.0@[i as int].0@, o.0@[i as int].1));
                    assert(work_view(stack@) =~= prev.push(
                        (o@[i as int].1, Slot::Member(proxy, escaped(o@[i as int].0))),
                    ));
                    assert(work_view(stack@) =~= rest + work.take(o.0@.len() - i));
                }
            }
            proof {
                assert(work.take(o.0@.len() as int) =~= work);
            }
        },
        _ => {
            proof {
                assert(rest + work =~= rest);
            }
        },
    }
}

impl Encoder {
    /// Makes the visit that is next on the work list.
    fn step(&mut self, g: &Vec<GNode>, limit: i32) -> (r: Result<(), CodecError>)
        requires
            steady(arena(g@), old(self)@),
            old(self).counter == old(self)@.order.len(),
            old(self)@.stack.len() > 0,
        ensures
            match encode_step(arena(g@), limit, old(self)@) {
                Err(e) => r == Err::<(), CodecError>(e),
                Ok(st) => r is Ok && final(self)@ == st && steady(arena(g@), st)
                    && final(self).counter == st.order.len() && st.out.len() > 0,
            },
    {
        let ghost st = self@;
        let ghost graph = arena(g@);
        let (n, place) = self.stack.pop().unwrap();
        let ghost slot = place@;
        proof {
            assert(st.stack.last() == (n, slot));
            assert(st.stack[st.stack.len() - 1] == st.stack.last());
            assert(work_view(self.stack@) =~= st.stack.drop_last());
            assert(graph[n as int] == g@[n as int]@);
        }
        let entry = self.seen[n];
        proof {
            self.visits@ = self.visits@.push(n);
        }
        match &g[n] {
            GNode::Null | GNode::Bool(_) | GNode::Number(_) | GNode::String(_) => {
                let p = add_node(&mut self.out, clone_primitive(&g[n]));
                link(&mut self.out, place, p);
            },
            GNode::Array(_) | GNode::Object(_) => {
                match entry {
                    None => {
                        let proxy = match &g[n] {
                            GNode::Array(_) => empty_array(),
                            _ => empty_object(),
                        };
                        let p = add_node(&mut self.out, proxy);
                        link(&mut self.out, place, p);
                        self.seen[n] = Some(Seen { proxy: p, id: None });
                        push_work(&mut self.stack, &g[n], p);
                    },
                    Some(e) => {
                        let id = match e.id {
                            Some(id) => id,
                            None => {
                                if self.counter >= limit {
                                    return Err(CodecError::RefIdOverflow);
                                }
                                self.counter = self.counter + 1;
                                mark(&mut self.out, e.proxy, self.counter);
                                self.seen[n] = Some(Seen { proxy: e.proxy, id: Some(self.counter) });
                                proof {
                                    self.order@ = self.order@.push(n);
                                }
                                self.counter
                            },
                        };
                        let r = make_ref_object(&mut self.out, id);
                        link(&mut self.out, place, r);
                    },
                }
            },
        }
        proof {
            assert(self@.stack =~= encode_step(graph, limit, st)->Ok_0.stack);
            assert(self@ == encode_step(graph, limit, st)->Ok_0);
            lemma_step_steady(graph, limit, st);
        }
        Ok(())
    }
}

/// Encodes a value with reference ids from one up to `limit`.
///
/// The graph is walked with a work list of its own, so its depth is
/// bounded by memory alone. The encoding fails with `RefIdOverflow` where
/// more than `limit` containers are visited more than once.
pub fn deflate_bounded(value: &GraphValue, limit: i32) -> (r: Result<JsonValue, CodecError>)
    requires
        value@.wf(),
    ensures
        match deflate_spec(value@, limit) {
            Ok(t) => r matches Ok(j) && j@ == t && canonical(t),
            Err(e) => r == Err::<JsonValue, CodecError>(e),
        },
{
    let graph = value.arena_nodes();
    let root = value.root();
    let mut seen: Vec<Option<Seen>> = Vec::new();
    let mut i: usize = 0;
    while i < graph.len()
        invariant
            i <= graph@.len(),
            seen@.len() == i,
            forall|k: int| 0 <= k < i ==> seen@[k] is None,
        decreases graph@.len() - i,
    {
        seen.push(None);
        i += 1;
    }
    let mut stack: Vec<(usize, Place)> = Vec::new();
    stack.push((root, Place::Root));
    let mut enc = Encoder {
        stack,
        out: Vec::new(),
        seen,
        counter: 0,
        order: Ghost(Seq::empty()),
        visits: Ghost(Seq::empty()),
    };
    let ghost goal = encode_run(value@.nodes, limit, encoding_start(value@));
    proof {
        assert(enc@.stack =~= encoding_start(value@).stack);
        assert(enc@.out =~= encoding_start(value@).out);
        assert(enc@.seen =~= encoding_start(value@).seen);
        assert(enc@ == encoding_start(value@));
    }
    while enc.stack.len() > 0
        invariant
            steady(arena(graph@), enc@),
            arena(graph@) == value@.nodes,
            enc.counter == enc@.order.len(),
            encode_run(arena(graph@), limit, enc@) == goal,
            goal == encode_run(value@.nodes, limit, encoding_start(value@)),
            enc@.out.len() == 0 ==> enc@.stack.len() > 0,
            enc@.stack.len() == enc.stack@.len(),
        decreases unseen(enc@.seen), enc@.stack.len(),
    {
        proof {
            if encode_step(arena(graph@), limit, enc@) is Ok {
                lemma_step_measure(arena(graph@), limit, enc@);
            }
        }
        match enc.step(graph, limit) {
            Err(e) => {
                return Err(e);
            },
            Ok(_) => {},
        }
    }
    let ghost t = unfold(enc@.out, 0);
    proof {
        lemma_unfold_represents(enc@.out, 0);
        lemma_represents_canonical(enc@.out, 0, t);
    }
    Ok(plain(&enc.out, 0, Ghost(t)))
}

/// Encodes a value: the plain tree in which the first visit of every
/// container holds its content, and every later visit is the reference
/// placeholder of the container's id.
pub fn deflate(value: &GraphValue) -> (r: Result<JsonValue, CodecError>)
    requires
        value@.wf(),
    ensures
        match deflate_spec(value@, MAX_REF_ID) {
            Ok(t) => r matches Ok(j) && j@ == t && canonical(t),
            Err(e) => r == Err::<JsonValue, CodecError>(e),
        },
{
    deflate_bounded(value, MAX_REF_ID)
}

} // verus!
