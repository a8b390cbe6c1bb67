//! Identity through encoding and decoding: two ways into the graph that
//! lead to one node lead to one node in the graph that comes back.

use vstd::prelude::*;
use crate::deflate::{
    encode_run, encode_step, encoding_start, lemma_step_measure, steady, lemma_step_steady,
    unseen, work_of, Encoding, Seen,
};
use crate::graph::{child, child_count, Graph, Node, Slot};
use crate::graph::unfold;
use crate::inflate::inflate_spec;
use crate::keys::rank;
use crate::members::lemma_put_alike;
use crate::numbering::{is_container, lemma_ids_follow_second_visits, times};
use crate::rebuild::{arrays_begin_plainly, lemma_decoded_stands, numbers_read_back, shaped};
use crate::sharing::{id_at, seen_at, stage};

verus! {

/// How many of the children of a node, from the `i`-th on, are `x`.
pub open spec fn mult(node: Node, x: usize, i: int) -> nat
    decreases child_count(node) - i,
{
    if 0 <= i < child_count(node) {
        (if child(node, i) == x {
            1nat
        } else {
            0nat
        }) + mult(node, x, i + 1)
    } else {
        0
    }
}

/// How many children of the visited containers below `upto` are `x`.
pub open spec fn slots(g: Seq<Node>, seen: Seq<Option<Seen>>, x: usize, upto: int) -> nat
    decreases upto,
{
    if 0 < upto <= g.len() && upto <= seen.len() {
        slots(g, seen, x, upto - 1) + if seen[upto - 1] is Some {
            mult(g[upto - 1], x, 0)
        } else {
            0nat
        }
    } else {
        0
    }
}

/// How many of the visits still to be made are visits of `x`.
pub open spec fn pending(stack: Seq<(usize, Slot)>, x: usize) -> nat
    decreases stack.len(),
{
    if stack.len() == 0 {
        0
    } else {
        pending(stack.drop_last(), x) + if stack.last().0 == x {
            1nat
        } else {
            0nat
        }
    }
}

/// Every visit made or still to be made is the first visit of all or the
/// visit of a child of a visited container, one visit for each child.
pub open spec fn tallied(g: Seq<Node>, root: usize, st: Encoding) -> bool {
    forall|x: usize|
        times(st.visits, x) + pending(st.stack, x) == (if x == root {
            1nat
        } else {
            0nat
        }) + #[trigger] slots(g, st.seen, x, g.len() as int)
}

proof fn lemma_pending_concat(a: Seq<(usize, Slot)>, b: Seq<(usize, Slot)>, x: usize)
    ensures
        pending(a + b, x) == pending(a, x) + pending(b, x),
    decreases b.len(),
{
    if b.len() == 0 {
        assert(a + b =~= a);
    } else {
        assert((a + b).drop_last() =~= a + b.drop_last());
        lemma_pending_concat(a, b.drop_last(), x);
    }
}

proof fn lemma_pending_work(node: Node, p: usize, x: usize, i: int)
    requires
        node is Array || node is Object,
        0 <= i <= child_count(node),
    ensures
        pending(work_of(node, p).take(child_count(node) - i), x) == mult(node, x, i),
    decreases child_count(node) - i,
{
    let len = child_count(node);
    let work = work_of(node, p);
    if i < len {
        let top = work.take(len - i);
        assert(top.last().0 == child(node, i));
        assert(top.drop_last() =~= work.take(len - (i + 1)));
        lemma_pending_work(node, p, x, i + 1);
    }
}

proof fn lemma_slots_update(
    g: Seq<Node>,
    seen: Seq<Option<Seen>>,
    x: usize,
    upto: int,
    n: int,
    e: Seen,
)
    requires
        0 <= n < seen.len(),
        0 <= upto <= g.len(),
        upto <= seen.len(),
    ensures
        slots(g, seen.update(n, Some(e)), x, upto) == slots(g, seen, x, upto) + if n < upto
            && seen[n] is None {
            mult(g[n], x, 0)
        } else {
            0nat
        },
    decreases upto,
{
    if upto > 0 {
        lemma_slots_update(g, seen, x, upto - 1, n, e);
    }
}

proof fn lemma_times_push(visits: Seq<usize>, n: usize, x: usize)
    ensures
        times(visits.push(n), x) == times(visits, x) + if n == x {
            1nat
        } else {
            0nat
        },
{
    assert(visits.push(n).drop_last() =~= visits);
}

proof fn lemma_step_tallied(g: Seq<Node>, root: usize, limit: i32, st: Encoding)
    requires
        steady(g, st),
        tallied(g, root, st),
        st.stack.len() > 0,
        encode_step(g, limit, st) is Ok,
    ensures
        tallied(g, root, encode_step(g, limit, st)->Ok_0),
{
    let st1 = encode_step(g, limit, st)->Ok_0;
    let n = st.stack.last().0;
    let rest = st.stack.drop_last();
    assert(st.stack[st.stack.len() - 1] == st.stack.last());
    assert forall|x: usize|
        times(st1.visits, x) + pending(st1.stack, x) == (if x == root {
            1nat
        } else {
            0nat
        }) + #[trigger] slots(g, st1.seen, x, g.len() as int) by {
        lemma_times_push(st.visits, n, x);
        assert(times(st.visits, x) + pending(st.stack, x) == (if x == root {
            1nat
        } else {
            0nat
        }) + slots(g, st.seen, x, g.len() as int));
        if is_container(g, n) {
            match st.seen[n as int] {
                None => {
                    let e = Seen { proxy: st.out.len() as usize, id: None };
                    let work = work_of(g[n as int], st.out.len() as usize);
                    lemma_slots_update(g, st.seen, x, g.len() as int, n as int, e);
                    lemma_pending_concat(rest, work, x);
                    lemma_pending_work(g[n as int], st.out.len() as usize, x, 0);
                    assert(work.take(child_count(g[n as int])) =~= work);
                },
                Some(e) => {
                    lemma_slots_update(
                        g,
                        st.seen,
                        x,
                        g.len() as int,
                        n as int,
                        Seen { proxy: e.proxy, id: Some((st.order.len() + 1) as i32) },
                    );
                },
            }
        }
    }
}

proof fn lemma_run_tallied(g: Seq<Node>, root: usize, limit: i32, st: Encoding)
    requires
        steady(g, st),
        tallied(g, root, st),
        encode_run(g, limit, st) is Ok,
        encode_run(g, limit, st)->Ok_0.out.len() <= usize::MAX,
    ensures
        tallied(g, root, encode_run(g, limit, st)->Ok_0),
    decreases unseen(st.seen), st.stack.len(),
{
    if st.stack.len() > 0 {
        let st1 = encode_step(g, limit, st)->Ok_0;
        lemma_step_measure(g, limit, st);
        crate::sharing::lemma_run_out_len(g, limit, st1);
        lemma_step_steady(g, limit, st);
        lemma_step_tallied(g, root, limit, st);
        lemma_run_tallied(g, root, limit, st1);
    }
}

/// When an encoding ends, every node has been visited once for each child
/// of a visited container that it is, and the root once more.
pub proof fn lemma_visits_are_slots(g: Graph, limit: i32)
    requires
        g.wf(),
        encode_run(g.nodes, limit, encoding_start(g)) is Ok,
        encode_run(g.nodes, limit, encoding_start(g))->Ok_0.out.len() <= usize::MAX,
    ensures
        ({
            let end = encode_run(g.nodes, limit, encoding_start(g))->Ok_0;
            forall|x: usize|
                times(end.visits, x) == (if x == g.root {
                    1nat
                } else {
                    0nat
                }) + #[trigger] slots(g.nodes, end.seen, x, g.nodes.len() as int)
        }),
{
    let st = encoding_start(g);
    assert(steady(g.nodes, st)) by {
        assert(crate::deflate::tidy(st.out));
    }
    assert(tallied(g.nodes, g.root, st)) by {
        assert forall|x: usize|
            times(st.visits, x) + pending(st.stack, x) == (if x == g.root {
                1nat
            } else {
                0nat
            }) + #[trigger] slots(g.nodes, st.seen, x, g.nodes.len() as int) by {
            lemma_slots_none(g.nodes, st.seen, x, g.nodes.len() as int);
            assert(st.stack.drop_last() =~= Seq::empty());
            assert(pending(st.stack.drop_last(), x) == 0);
        }
    }
    lemma_run_tallied(g.nodes, g.root, limit, st);
    let end = encode_run(g.nodes, limit, st)->Ok_0;
    lemma_run_ends(g.nodes, limit, st);
    assert forall|x: usize|
        times(end.visits, x) == (if x == g.root {
            1nat
        } else {
            0nat
        }) + #[trigger] slots(g.nodes, end.seen, x, g.nodes.len() as int) by {
        assert(pending(end.stack, x) == 0);
    }
}

proof fn lemma_slots_none(g: Seq<Node>, seen: Seq<Option<Seen>>, x: usize, upto: int)
    requires
        forall|i: int| 0 <= i < seen.len() ==> seen[i] is None,
    ensures
        slots(g, seen, x, upto) == 0,
    decreases upto,
{
    if 0 < upto <= g.len() && upto <= seen.len() {
        lemma_slots_none(g, seen, x, upto - 1);
    }
}

/// An encoding ends with nothing left to visit.
pub proof fn lemma_run_ends(g: Seq<Node>, limit: i32, st: Encoding)
    requires
        encode_run(g, limit, st) is Ok,
    ensures
        encode_run(g, limit, st)->Ok_0.stack.len() == 0,
    decreases unseen(st.seen), st.stack.len(),
{
    if st.stack.len() > 0 {
        lemma_step_measure(g, limit, st);
        lemma_run_ends(g, limit, encode_step(g, limit, st)->Ok_0);
    }
}

proof fn lemma_mult_one(node: Node, x: usize, i: int, at: int)
    requires
        0 <= i <= at < child_count(node),
        child(node, at) == x,
    ensures
        mult(node, x, i) >= 1,
    decreases at - i,
{
    if i < at {
        lemma_mult_one(node, x, i + 1, at);
    }
}

proof fn lemma_mult_two(node: Node, x: usize, i: int, a: int, b: int)
    requires
        0 <= i <= a < b < child_count(node),
        child(node, a) == x,
        child(node, b) == x,
    ensures
        mult(node, x, i) >= 2,
    decreases a - i,
{
    if i < a {
        lemma_mult_two(node, x, i + 1, a, b);
    } else {
        lemma_mult_one(node, x, a + 1, b);
    }
}

proof fn lemma_slots_one(g: Seq<Node>, seen: Seq<Option<Seen>>, x: usize, upto: int, c: int)
    requires
        0 <= c < upto <= g.len(),
        upto <= seen.len(),
        seen[c] is Some,
    ensures
        slots(g, seen, x, upto) >= mult(g[c], x, 0),
    decreases upto,
{
    if c < upto - 1 {
        lemma_slots_one(g, seen, x, upto - 1, c);
    }
}

proof fn lemma_slots_two(
    g: Seq<Node>,
    seen: Seq<Option<Seen>>,
    x: usize,
    upto: int,
    c: int,
    d: int,
)
    requires
        0 <= c < d < upto <= g.len(),
        upto <= seen.len(),
        seen[c] is Some,
        seen[d] is Some,
    ensures
        slots(g, seen, x, upto) >= mult(g[c], x, 0) + mult(g[d], x, 0),
    decreases upto,
{
    if d < upto - 1 {
        lemma_slots_two(g, seen, x, upto - 1, c, d);
    } else {
        lemma_slots_one(g, seen, x, upto - 1, c);
    }
}

/// A node that is the child of a visited container at one place has a
/// slot; one that is a child at two places has two.
pub proof fn lemma_slots_count(
    g: Seq<Node>,
    seen: Seq<Option<Seen>>,
    x: usize,
    c: usize,
    i: int,
    d: usize,
    j: int,
)
    requires
        seen.len() == g.len(),
        c < g.len(),
        d < g.len(),
        seen[c as int] is Some,
        seen[d as int] is Some,
        0 <= i < child_count(g[c as int]),
        0 <= j < child_count(g[d as int]),
        child(g[c as int], i) == x,
        child(g[d as int], j) == x,
    ensures
        slots(g, seen, x, g.len() as int) >= 1,
        (c != d || i != j) ==> slots(g, seen, x, g.len() as int) >= 2,
{
    lemma_mult_one(g[c as int], x, 0, i);
    lemma_mult_one(g[d as int], x, 0, j);
    lemma_slots_one(g, seen, x, g.len() as int, c as int);
    if c == d {
        if i < j {
            lemma_mult_two(g[c as int], x, 0, i, j);
        } else if j < i {
            lemma_mult_two(g[c as int], x, 0, j, i);
        }
    } else if c < d {
        lemma_slots_two(g, seen, x, g.len() as int, c as int, d as int);
    } else {
        lemma_slots_two(g, seen, x, g.len() as int, d as int, c as int);
    }
}

/// One step of a way into a graph: to the element at an index of an
/// array, or to the member under a key of an object.
pub enum Step {
    Index(int),
    Key(Seq<char>),
}

/// The place among the children of a node that a step leads to.
pub open spec fn step_index(node: Node, step: Step) -> Option<int> {
    match node {
        Node::Array(kids) => match step {
            Step::Index(i) => if 0 <= i < kids.len() {
                Some(i)
            } else {
                None
            },
            _ => None,
        },
        Node::Object(members) => match step {
            Step::Key(k) => {
                let r = rank(members, k, 0);
                if 0 <= r < members.len() && members[r].0 == k {
                    Some(r)
                } else {
                    None
                }
            },
            _ => None,
        },
        _ => None,
    }
}

/// The node that a step leads to from the node `n`.
pub open spec fn step_to(nodes: Seq<Node>, n: usize, step: Step) -> Option<usize> {
    if n < nodes.len() {
        match step_index(nodes[n as int], step) {
            Some(i) => Some(child(nodes[n as int], i)),
            None => None,
        }
    } else {
        None
    }
}

/// The node that a way leads to from the root.
pub open spec fn resolve(nodes: Seq<Node>, root: usize, path: Seq<Step>) -> Option<usize>
    decreases path.len(),
{
    if path.len() == 0 {
        Some(root)
    } else {
        match resolve(nodes, root, path.drop_last()) {
            Some(m) => step_to(nodes, m, path.last()),
            None => None,
        }
    }
}

/// No leaf is visited twice: none is the child of visited containers at
/// two places.
pub open spec fn leaves_met_once(g: Seq<Node>, end: Encoding) -> bool {
    forall|x: usize| x < g.len() && !is_container(g, x) ==> #[trigger] times(end.visits, x) <= 1
}

/// What is known of the graph that comes back: each of its nodes that
/// stands for a node of the encoded graph is shaped like it, a container
/// with an id has one node only, and a node without id has one slot at most.
pub open spec fn mirrored(g: Graph, end: Encoding, back: Seq<Node>, stands: Map<usize, usize>) -> bool {
    &&& g.wf()
    &&& end.seen.len() == g.nodes.len()
    &&& stands.contains_key(0)
    &&& stands[0] == g.root
    &&& forall|n: usize| #[trigger] stands.contains_key(n) ==> shaped(g.nodes, back, stands, n)
    &&& forall|n: usize, m: usize|
        stands.contains_key(n) && stands.contains_key(m) && #[trigger] stands[n]
            == #[trigger] stands[m] && is_container(g.nodes, stands[n]) && id_at(
            stage(end),
            stands[n],
        ) is Some ==> n == m
    &&& forall|n: usize| #[trigger]
        stands.contains_key(n) && is_container(g.nodes, stands[n]) ==> seen_at(
            stage(end),
            stands[n],
        )
    &&& forall|x: usize|
        x < g.nodes.len() && !(is_container(g.nodes, x) && id_at(stage(end), x) is Some) ==> (
        if x == g.root {
            1nat
        } else {
            0nat
        }) + #[trigger] slots(g.nodes, end.seen, x, g.nodes.len() as int) <= 1
}

/// A step from a node of the graph that came back leads where the same
/// step leads from the node that it stands for.
proof fn lemma_step_alike(
    g: Seq<Node>,
    back: Seq<Node>,
    stands: Map<usize, usize>,
    m2: usize,
    step: Step,
)
    requires
        stands.contains_key(m2),
        shaped(g, back, stands, m2),
    ensures
        step_index(back[m2 as int], step) == step_index(g[stands[m2] as int], step),
        step_index(back[m2 as int], step) matches Some(i) ==> stands.contains_key(
            child(back[m2 as int], i),
        ) && stands[child(back[m2 as int], i)] == child(g[stands[m2] as int], i),
{
    let m = stands[m2];
    match g[m as int] {
        Node::Array(kids) => {
            match step {
                Step::Index(i) => {
                    if 0 <= i < kids.len() {
                        assert(stands.contains_key(back[m2 as int]->Array_0[i]));
                    }
                },
                _ => {},
            }
        },
        Node::Object(members) => {
            match step {
                Step::Key(k) => {
                    let ms2 = back[m2 as int]->Object_0;
                    assert forall|j: int| 0 <= j < ms2.len() implies (#[trigger] ms2[j]).0
                        == members[j].0 by {}
                    lemma_put_alike(ms2, members, k, 0usize, 0usize);
                    let r = rank(members, k, 0);
                    if 0 <= r < members.len() {
                        assert(ms2[r].0 == members[r].0);
                    }
                },
                _ => {},
            }
        },
        _ => {},
    }
}

/// A way that leads somewhere in the encoded graph leads, in the graph
/// that came back, to a node that stands for that node.
proof fn lemma_follow(g: Graph, end: Encoding, back: Seq<Node>, stands: Map<usize, usize>, p: Seq<Step>)
    requires
        mirrored(g, end, back, stands),
        resolve(g.nodes, g.root, p) is Some,
    ensures
        resolve(back, 0, p) is Some,
        stands.contains_key(resolve(back, 0, p)->0),
        stands[resolve(back, 0, p)->0] == resolve(g.nodes, g.root, p)->0,
    decreases p.len(),
{
    if p.len() > 0 {
        lemma_follow(g, end, back, stands, p.drop_last());
        let m2 = resolve(back, 0, p.drop_last())->0;
        lemma_step_alike(g.nodes, back, stands, m2, p.last());
    }
}

/// Two ways that lead to one node of the encoded graph lead to one node of
/// the graph that came back.
proof fn lemma_same_node(
    g: Graph,
    end: Encoding,
    back: Seq<Node>,
    stands: Map<usize, usize>,
    first: Seq<Step>,
    second: Seq<Step>,
)
    requires
        mirrored(g, end, back, stands),
        resolve(g.nodes, g.root, first) is Some,
        resolve(g.nodes, g.root, first) == resolve(g.nodes, g.root, second),
    ensures
        resolve(back, 0, first) == resolve(back, 0, second),
    decreases first.len() + second.len(),
{
    lemma_follow(g, end, back, stands, first);
    lemma_follow(g, end, back, stands, second);
    let a = resolve(g.nodes, g.root, first)->0;
    let a1 = resolve(back, 0, first)->0;
    let a2 = resolve(back, 0, second)->0;
    if is_container(g.nodes, a) && id_at(stage(end), a) is Some {
        assert(stands[a1] == stands[a2]);
    } else {
        let total = slots(g.nodes, end.seen, a, g.nodes.len() as int);
        assert((if a == g.root {
            1nat
        } else {
            0nat
        }) + total <= 1);
        if first.len() > 0 {
            lemma_follow(g, end, back, stands, first.drop_last());
            let c1 = resolve(g.nodes, g.root, first.drop_last())->0;
            let m1 = resolve(back, 0, first.drop_last())->0;
            let i1 = step_index(g.nodes[c1 as int], first.last())->0;
            lemma_step_alike(g.nodes, back, stands, m1, first.last());
            assert(is_container(g.nodes, c1));
            assert(seen_at(stage(end), stands[m1]));
            lemma_slots_count(g.nodes, end.seen, a, c1, i1, c1, i1);
            if second.len() > 0 {
                lemma_follow(g, end, back, stands, second.drop_last());
                let c2 = resolve(g.nodes, g.root, second.drop_last())->0;
                let m2 = resolve(back, 0, second.drop_last())->0;
                let i2 = step_index(g.nodes[c2 as int], second.last())->0;
                lemma_step_alike(g.nodes, back, stands, m2, second.last());
                assert(is_container(g.nodes, c2));
                assert(seen_at(stage(end), stands[m2]));
                lemma_slots_count(g.nodes, end.seen, a, c1, i1, c2, i2);
                assert(c1 == c2 && i1 == i2);
                lemma_same_node(g, end, back, stands, first.drop_last(), second.drop_last());
            }
        } else if second.len() > 0 {
            lemma_follow(g, end, back, stands, second.drop_last());
            let c2 = resolve(g.nodes, g.root, second.drop_last())->0;
            let m2 = resolve(back, 0, second.drop_last())->0;
            let i2 = step_index(g.nodes[c2 as int], second.last())->0;
            lemma_step_alike(g.nodes, back, stands, m2, second.last());
            assert(is_container(g.nodes, c2));
            assert(seen_at(stage(end), stands[m2]));
            lemma_slots_count(g.nodes, end.seen, a, c2, i2, c2, i2);
        }
    }
}

/// Sharing survives encoding and decoding: two ways into the graph lead to
/// one node exactly when, in the graph that comes back, they lead to one
/// node. So a node that is shared stays shared, a node that lies on a
/// cycle stays on it, and nodes that are different stay different.
///
/// This holds of a graph whose encoding succeeds and decodes, with no more
/// nodes in either than a handle can count, in which no leaf is the child
/// of containers at two places and no array without an id begins, once
/// encoded, with what reads as a marker; and where integers written as
/// numbers are read back as the same integers.
pub proof fn lemma_sharing_round_trip(g: Graph, limit: i32, first: Seq<Step>, second: Seq<Step>)
    requires
        g.wf(),
        encode_run(g.nodes, limit, encoding_start(g)) is Ok,
        encode_run(g.nodes, limit, encoding_start(g))->Ok_0.out.len() <= usize::MAX,
        inflate_spec(unfold(encode_run(g.nodes, limit, encoding_start(g))->Ok_0.out, 0)) is Ok,
        inflate_spec(
            unfold(encode_run(g.nodes, limit, encoding_start(g))->Ok_0.out, 0),
        )->Ok_0.nodes.len() <= usize::MAX,
        numbers_read_back(),
        arrays_begin_plainly(g.nodes, stage(encode_run(g.nodes, limit, encoding_start(g))->Ok_0)),
        leaves_met_once(g.nodes, encode_run(g.nodes, limit, encoding_start(g))->Ok_0),
        resolve(g.nodes, g.root, first) is Some,
        resolve(g.nodes, g.root, second) is Some,
    ensures
        ({
            let end = encode_run(g.nodes, limit, encoding_start(g))->Ok_0;
            let back = inflate_spec(unfold(end.out, 0))->Ok_0;
            &&& resolve(back.nodes, back.root, first) is Some
            &&& resolve(back.nodes, back.root, second) is Some
            &&& (resolve(g.nodes, g.root, first) == resolve(g.nodes, g.root, second)) <==> (resolve(
                back.nodes,
                back.root,
                first,
            ) == resolve(back.nodes, back.root, second))
        }),
{
    let end = encode_run(g.nodes, limit, encoding_start(g))->Ok_0;
    let back = inflate_spec(unfold(end.out, 0))->Ok_0;
    let stands = lemma_decoded_stands(g, limit);
    lemma_visits_are_slots(g, limit);
    lemma_ids_follow_second_visits(g, limit);
    assert(mirrored(g, end, back.nodes, stands)) by {
        assert forall|x: usize|
            x < g.nodes.len() && !(is_container(g.nodes, x) && id_at(stage(end), x) is Some)
                implies (if x == g.root {
                1nat
            } else {
                0nat
            }) + #[trigger] slots(g.nodes, end.seen, x, g.nodes.len() as int) <= 1 by {
            if is_container(g.nodes, x) {
                assert(times(end.visits, x) <= 1) by {
                    let e = end.seen[x as int];
                }
            } else {
                assert(times(end.visits, x) <= 1);
            }
        }
    }
    lemma_follow(g, end, back.nodes, stands, first);
    lemma_follow(g, end, back.nodes, stands, second);
    if resolve(g.nodes, g.root, first) == resolve(g.nodes, g.root, second) {
        lemma_same_node(g, end, back.nodes, stands, first, second);
    }
}

/// A cycle survives encoding and decoding: where a way on from a node
/// leads back to the node, it does so in the graph that comes back.
pub proof fn lemma_cycle_round_trip(g: Graph, limit: i32, p: Seq<Step>, q: Seq<Step>)
    requires
        g.wf(),
        encode_run(g.nodes, limit, encoding_start(g)) is Ok,
        encode_run(g.nodes, limit, encoding_start(g))->Ok_0.out.len() <= usize::MAX,
        inflate_spec(unfold(encode_run(g.nodes, limit, encoding_start(g))->Ok_0.out, 0)) is Ok,
        inflate_spec(
            unfold(encode_run(g.nodes, limit, encoding_start(g))->Ok_0.out, 0),
        )->Ok_0.nodes.len() <= usize::MAX,
        numbers_read_back(),
        arrays_begin_plainly(g.nodes, stage(encode_run(g.nodes, limit, encoding_start(g))->Ok_0)),
        leaves_met_once(g.nodes, encode_run(g.nodes, limit, encoding_start(g))->Ok_0),
        resolve(g.nodes, g.root, p) is Some,
        resolve(g.nodes, g.root, p + q) == resolve(g.nodes, g.root, p),
    ensures
        ({
            let end = encode_run(g.nodes, limit, encoding_start(g))->Ok_0;
            let back = inflate_spec(unfold(end.out, 0))->Ok_0;
            &&& resolve(back.nodes, back.root, p) is Some
            &&& resolve(back.nodes, back.root, p + q) == resolve(back.nodes, back.root, p)
        }),
{
    lemma_sharing_round_trip(g, limit, p, p + q);
}

} // verus!
